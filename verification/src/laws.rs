//! The laws of subset matching, stated over the stored content of the trie
//! (`count_at`) and the exact sequence a query emits (`spec_match`).

use vstd::prelude::*;

use crate::node::count_in;
use crate::node::strictly_ascending;
use crate::node::within;
use crate::node::Node;

verus! {

/// How many rule identifiers equal to `r` the query `q` is owed below `n`:
/// one contribution for every sub-itemset of `q`, weighted by the count
/// stored at its path. The first summand ranges over the sub-itemsets that
/// skip `q`'s first item, the second over those that begin with it.
pub open spec fn matched_count(n: Node, q: Seq<i32>, r: i32) -> nat
    decreases q.len(),
{
    if q.len() == 0 {
        n.count_at(Seq::<i32>::empty(), r)
    } else {
        matched_count(n, q.drop_first(), r) + if n.has_kid(q[0]) {
            matched_count(n.kid(q[0]), q.drop_first(), r)
        } else {
            0nat
        }
    }
}

/// Counting occurrences distributes over concatenation.
pub proof fn lemma_count_concat(s1: Seq<i32>, s2: Seq<i32>, r: i32)
    ensures
        count_in(s1 + s2, r) == count_in(s1, r) + count_in(s2, r),
    decreases s2.len(),
{
    if s2.len() == 0 {
        assert(s1 + s2 =~= s1);
    } else {
        lemma_count_concat(s1, s2.drop_last(), r);
        assert((s1 + s2).drop_last() =~= s1 + s2.drop_last());
        assert((s1 + s2).last() == s2.last());
    }
}

/// What one child keyed on a query item emits is part of what all the
/// children emit.
proof fn lemma_kids_at_least(n: Node, q: Seq<i32>, i0: int, i: int, r: i32)
    requires
        0 <= i0 <= i < q.len(),
        n.has_kid(q[i]),
    ensures
        count_in(n.match_kids(q, i0), r) >= count_in(n.kid(q[i]).spec_match(q.skip(i + 1)), r),
    decreases i - i0,
{
    let part = if n.has_kid(q[i0]) {
        n.kid(q[i0]).spec_match(q.skip(i0 + 1))
    } else {
        Seq::<i32>::empty()
    };
    lemma_count_concat(part, n.match_kids(q, i0 + 1), r);
    if i0 < i {
        lemma_kids_at_least(n, q, i0 + 1, i, r);
    }
}

/// Completeness, with multiplicity: for every itemset `a` that is a subset
/// of the query `q`, the match result holds the rule identifier `r` at least
/// as often as `r` is stored at `a`. In particular an empty antecedent is
/// reported against every query, and a pair inserted twice is reported
/// twice.
pub proof fn lemma_match_complete(n: Node, q: Seq<i32>, a: Seq<i32>, r: i32)
    requires
        strictly_ascending(q),
        strictly_ascending(a),
        within(a, q),
    ensures
        count_in(n.spec_match(q), r) >= n.count_at(a, r),
    decreases q.len(),
{
    lemma_count_concat(n.rule_ids@, n.match_kids(q, 0), r);
    if a.len() > 0 {
        let x = a[0];
        if n.has_kid(x) {
            assert(a.contains(x));
            assert(q.contains(x));
            let i = choose|i: int| 0 <= i < q.len() && q[i] == x;
            assert(0 <= i < q.len() && q[i] == x);
            let q2 = q.skip(i + 1);
            let a2 = a.drop_first();
            assert forall|u: int, v: int| 0 <= u < v < q2.len() implies #[trigger] q2[u]
                < #[trigger] q2[v] by {
                assert(q[u + i + 1] < q[v + i + 1]);
            }
            assert forall|u: int, v: int| 0 <= u < v < a2.len() implies #[trigger] a2[u]
                < #[trigger] a2[v] by {
                assert(a[u + 1] < a[v + 1]);
            }
            assert forall|y: i32| a2.contains(y) implies q2.contains(y) by {
                let ka = choose|ka: int| 0 <= ka < a2.len() && a2[ka] == y;
                assert(a[ka + 1] == y);
                assert(a.contains(y));
                assert(q.contains(y));
                let kq = choose|kq: int| 0 <= kq < q.len() && q[kq] == y;
                assert(a[0] < a[ka + 1]);
                if kq < i {
                    assert(q[kq] < q[i]);
                }
                assert(kq > i);
                assert(q2[kq - i - 1] == y);
                assert(q2.contains(y));
            }
            lemma_match_complete(n.kid(x), q2, a2, r);
            lemma_kids_at_least(n, q, 0, i, r);
        }
    }
}

/// Some child keyed on a remaining query item emits `r` whenever the
/// children together emit `r`; this picks one out.
proof fn lemma_kids_member(n: Node, q: Seq<i32>, i0: int, r: i32) -> (i: int)
    requires
        count_in(n.match_kids(q, i0), r) > 0,
    ensures
        i0 <= i < q.len(),
        n.has_kid(q[i]),
        count_in(n.kid(q[i]).spec_match(q.skip(i + 1)), r) > 0,
    decreases q.len() - i0,
{
    if i0 < 0 || i0 >= q.len() {
        assert(n.match_kids(q, i0) =~= Seq::<i32>::empty());
        i0
    } else {
        let part = if n.has_kid(q[i0]) {
            n.kid(q[i0]).spec_match(q.skip(i0 + 1))
        } else {
            Seq::<i32>::empty()
        };
        lemma_count_concat(part, n.match_kids(q, i0 + 1), r);
        if count_in(part, r) > 0 {
            assert(n.has_kid(q[i0]));
            i0
        } else {
            lemma_kids_member(n, q, i0 + 1, r)
        }
    }
}

/// Soundness: every rule identifier the match result holds is stored at some
/// strictly ascending sub-itemset of the query — nothing else is ever
/// reported. The witness itemset is returned.
pub proof fn lemma_match_sound(n: Node, q: Seq<i32>, r: i32) -> (a: Seq<i32>)
    requires
        strictly_ascending(q),
        count_in(n.spec_match(q), r) > 0,
    ensures
        strictly_ascending(a),
        within(a, q),
        n.count_at(a, r) > 0,
    decreases q.len(),
{
    lemma_count_concat(n.rule_ids@, n.match_kids(q, 0), r);
    if count_in(n.rule_ids@, r) > 0 {
        let a = Seq::<i32>::empty();
        assert(n.count_at(a, r) == count_in(n.rule_ids@, r));
        a
    } else {
        let i = lemma_kids_member(n, q, 0, r);
        let q2 = q.skip(i + 1);
        assert forall|u: int, v: int| 0 <= u < v < q2.len() implies #[trigger] q2[u]
            < #[trigger] q2[v] by {
            assert(q[u + i + 1] < q[v + i + 1]);
        }
        let a2 = lemma_match_sound(n.kid(q[i]), q2, r);
        let a = seq![q[i]] + a2;
        assert(a[0] == q[i]);
        assert(a.drop_first() =~= a2);
        assert forall|u: int| 0 <= u < a2.len() implies q[i] < #[trigger] a2[u] by {
            assert(a2.contains(a2[u]));
            assert(q2.contains(a2[u]));
            let kq = choose|kq: int| 0 <= kq < q2.len() && q2[kq] == a2[u];
            assert(q2[kq] == q[kq + i + 1]);
            assert(q[i] < q[kq + i + 1]);
        }
        assert forall|u: int, v: int| 0 <= u < v < a.len() implies #[trigger] a[u]
            < #[trigger] a[v] by {
            if u > 0 {
                assert(a2[u - 1] < a2[v - 1]);
            } else {
                assert(q[i] < a2[v - 1]);
            }
        }
        assert forall|y: i32| a.contains(y) implies q.contains(y) by {
            let ka = choose|ka: int| 0 <= ka < a.len() && a[ka] == y;
            if ka == 0 {
                assert(q[i] == y);
                assert(q.contains(y));
            } else {
                assert(a2[ka - 1] == y);
                assert(a2.contains(y));
                assert(q2.contains(y));
                let kq = choose|kq: int| 0 <= kq < q2.len() && q2[kq] == y;
                assert(q[kq + i + 1] == y);
                assert(q.contains(y));
            }
        }
        assert(n.count_at(a, r) == n.kid(q[i]).count_at(a2, r));
        a
    }
}

/// Together the children emit, for the query items from position `i` on,
/// exactly what the remaining sub-itemsets are owed.
proof fn lemma_kids_count(n: Node, q: Seq<i32>, i: int, r: i32)
    requires
        0 <= i <= q.len(),
    ensures
        count_in(n.match_kids(q, i), r) + n.count_at(Seq::<i32>::empty(), r) == matched_count(
            n,
            q.skip(i),
            r,
        ),
    decreases q.len(), q.len() - i,
{
    if i == q.len() {
        assert(n.match_kids(q, i) =~= Seq::<i32>::empty());
        assert(q.skip(i).len() == 0);
    } else {
        let qs = q.skip(i);
        assert(qs[0] == q[i]);
        assert(qs.drop_first() =~= q.skip(i + 1));
        let part = if n.has_kid(q[i]) {
            n.kid(q[i]).spec_match(q.skip(i + 1))
        } else {
            Seq::<i32>::empty()
        };
        lemma_count_concat(part, n.match_kids(q, i + 1), r);
        lemma_kids_count(n, q, i + 1, r);
        if n.has_kid(q[i]) {
            lemma_match_count(n.kid(q[i]), q.skip(i + 1), r);
        }
    }
}

/// Exactness: the match result holds each rule identifier exactly as often
/// as the query's sub-itemsets are owed it — no rule is reported through any
/// path but its own, and none twice.
pub proof fn lemma_match_count(n: Node, q: Seq<i32>, r: i32)
    ensures
        count_in(n.spec_match(q), r) == matched_count(n, q, r),
    decreases q.len(), q.len() + 1,
{
    lemma_count_concat(n.rule_ids@, n.match_kids(q, 0), r);
    lemma_kids_count(n, q, 0, r);
    assert(q.skip(0) =~= q);
}

/// A subtree that stores no copy of `r` is owed no copy of `r`.
proof fn lemma_matched_count_none(n: Node, q: Seq<i32>, r: i32)
    requires
        forall|p: Seq<i32>| #[trigger] n.count_at(p, r) == 0,
    ensures
        matched_count(n, q, r) == 0,
    decreases q.len(),
{
    if q.len() == 0 {
        assert(n.count_at(Seq::<i32>::empty(), r) == 0);
    } else {
        lemma_matched_count_none(n, q.drop_first(), r);
        if n.has_kid(q[0]) {
            let kid = n.kid(q[0]);
            assert forall|p: Seq<i32>| #[trigger] kid.count_at(p, r) == 0 by {
                let pp = seq![q[0]] + p;
                assert(pp[0] == q[0]);
                assert(pp.drop_first() =~= p);
                assert(n.count_at(pp, r) == kid.count_at(p, r));
                assert(n.count_at(pp, r) == 0);
            }
            lemma_matched_count_none(kid, q.drop_first(), r);
        }
    }
}

/// Two tries with the same stored content are owed the same counts.
proof fn lemma_matched_count_determined(n1: Node, n2: Node, q: Seq<i32>, r: i32)
    requires
        forall|p: Seq<i32>, rr: i32| #[trigger] n1.count_at(p, rr) == n2.count_at(p, rr),
    ensures
        matched_count(n1, q, r) == matched_count(n2, q, r),
    decreases q.len(),
{
    if q.len() == 0 {
        assert(n1.count_at(Seq::<i32>::empty(), r) == n2.count_at(Seq::<i32>::empty(), r));
    } else {
        lemma_matched_count_determined(n1, n2, q.drop_first(), r);
        let x = q[0];
        if n1.has_kid(x) && n2.has_kid(x) {
            let k1 = n1.kid(x);
            let k2 = n2.kid(x);
            assert forall|p: Seq<i32>, rr: i32| #[trigger] k1.count_at(p, rr) == k2.count_at(
                p,
                rr,
            ) by {
                let pp = seq![x] + p;
                assert(pp[0] == x);
                assert(pp.drop_first() =~= p);
                assert(n1.count_at(pp, rr) == k1.count_at(p, rr));
                assert(n2.count_at(pp, rr) == k2.count_at(p, rr));
                assert(n1.count_at(pp, rr) == n2.count_at(pp, rr));
            }
            lemma_matched_count_determined(k1, k2, q.drop_first(), r);
        } else if n1.has_kid(x) {
            let k1 = n1.kid(x);
            assert forall|p: Seq<i32>| #[trigger] k1.count_at(p, r) == 0 by {
                let pp = seq![x] + p;
                assert(pp[0] == x);
                assert(pp.drop_first() =~= p);
                assert(n1.count_at(pp, r) == k1.count_at(p, r));
                assert(n2.count_at(pp, r) == 0);
                assert(n1.count_at(pp, r) == n2.count_at(pp, r));
            }
            lemma_matched_count_none(k1, q.drop_first(), r);
        } else if n2.has_kid(x) {
            let k2 = n2.kid(x);
            assert forall|p: Seq<i32>| #[trigger] k2.count_at(p, r) == 0 by {
                let pp = seq![x] + p;
                assert(pp[0] == x);
                assert(pp.drop_first() =~= p);
                assert(n2.count_at(pp, r) == k2.count_at(p, r));
                assert(n1.count_at(pp, r) == 0);
                assert(n1.count_at(pp, r) == n2.count_at(pp, r));
            }
            lemma_matched_count_none(k2, q.drop_first(), r);
        }
    }
}

/// Order independence of insertion: two tries holding the same rules at the
/// same itemsets — however the insertions that built them were interleaved —
/// emit every rule identifier equally often for every query.
pub proof fn lemma_match_determined(n1: Node, n2: Node, q: Seq<i32>, r: i32)
    requires
        forall|p: Seq<i32>, rr: i32| #[trigger] n1.count_at(p, rr) == n2.count_at(p, rr),
    ensures
        count_in(n1.spec_match(q), r) == count_in(n2.spec_match(q), r),
{
    lemma_match_count(n1, q, r);
    lemma_match_count(n2, q, r);
    lemma_matched_count_determined(n1, n2, q, r);
}

} // verus!
