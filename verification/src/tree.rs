//! The public index: a trie root behind a handle type, the container a query
//! hands back, and the query-order check.

use vstd::prelude::*;

use crate::laws::lemma_match_complete;
use crate::laws::lemma_match_determined;
use crate::laws::lemma_match_sound;
use crate::node::count_in;
use crate::node::nondecreasing;
use crate::node::strictly_ascending;
use crate::node::within;
use crate::node::Node;

verus! {

/// The rule identifiers one query discovered, in discovery order, owned by
/// the caller of the query.
pub struct RuleMatches {
    rule_ids: Vec<i32>,
}

impl RuleMatches {
    /// The identifiers held, in discovery order.
    pub closed spec fn ids(self) -> Seq<i32> {
        self.rule_ids@
    }

    pub fn new(rule_ids: Vec<i32>) -> (m: RuleMatches)
        ensures
            m.ids() == rule_ids@,
    {
        RuleMatches { rule_ids }
    }

    pub fn len(&self) -> (n: usize)
        ensures
            n == self.ids().len(),
    {
        self.rule_ids.len()
    }

    pub fn rule_id(&self, index: usize) -> (r: i32)
        requires
            index < self.ids().len(),
        ensures
            r == self.ids()[index as int],
    {
        self.rule_ids[index]
    }
}

/// Adjacent order carries over to every pair of positions.
proof fn lemma_adjacent_nondecreasing(s: Seq<i32>, a: int, b: int)
    requires
        forall|k: int| 1 <= k < s.len() ==> s[k - 1] <= #[trigger] s[k],
        0 <= a <= b < s.len(),
    ensures
        s[a] <= s[b],
    decreases b - a,
{
    if a < b {
        lemma_adjacent_nondecreasing(s, a, b - 1);
        assert(s[b - 1] <= s[b]);
    }
}

/// True when the itemset never steps down; every strictly ascending itemset
/// passes. A query is expected to pass this check before it is matched.
pub fn is_sorted(itemset: &[i32]) -> (r: bool)
    ensures
        r == nondecreasing(itemset@),
{
    let mut i: usize = 1;
    while i < itemset.len()
        invariant
            1 <= i,
            forall|k: int| 1 <= k < i && k < itemset@.len() ==> itemset@[k - 1]
                <= #[trigger] itemset@[k],
        decreases itemset@.len() - i,
    {
        if itemset[i - 1] > itemset[i] {
            proof {
                assert(!nondecreasing(itemset@));
            }
            return false;
        }
        i += 1;
    }
    proof {
        assert forall|a: int, b: int| 0 <= a < b < itemset@.len() implies itemset@[a]
            <= itemset@[b] by {
            lemma_adjacent_nondecreasing(itemset@, a, b);
        }
    }
    true
}

/// The trie root and the unit of ownership. Rules are inserted one at a
/// time; a query then collects the identifier of every stored rule whose
/// antecedent itemset is a subset of the query itemset.
pub struct RuleTree {
    root: Node,
}

impl RuleTree {
    /// Structural invariant: in the whole trie, every node's children are
    /// strictly sorted by key.
    pub closed spec fn wf(self) -> bool {
        self.root.wf()
    }

    /// How many times `rule_id` has been stored under the antecedent
    /// `itemset`: the abstract content of the index.
    pub closed spec fn count_of(self, itemset: Seq<i32>, rule_id: i32) -> nat {
        self.root.count_at(itemset, rule_id)
    }

    /// The exact sequence of rule identifiers the query `itemset` matches.
    pub closed spec fn match_seq(self, itemset: Seq<i32>) -> Seq<i32> {
        self.root.spec_match(itemset)
    }

    pub fn new() -> (t: RuleTree)
        ensures
            t.wf(),
            forall|p: Seq<i32>, r: i32| #[trigger] t.count_of(p, r) == 0,
    {
        let t = RuleTree { root: Node::new(0) };
        proof {
            assert forall|p: Seq<i32>, r: i32| #[trigger] t.count_of(p, r) == 0 by {
                assert(t.root.count_at(p, r) == 0);
            }
        }
        t
    }

    /// Store one rule: the count at exactly its antecedent grows by one and
    /// nothing else changes. The caller is trusted to hand an itemset in
    /// strictly ascending order; whatever is handed in, the structural
    /// invariant survives.
    pub fn insert(&mut self, itemset: &[i32], rule_id: i32)
        requires
            old(self).wf(),
        ensures
            final(self).wf(),
            final(self).count_of(itemset@, rule_id) == old(self).count_of(itemset@, rule_id) + 1,
            forall|p: Seq<i32>, r: i32|
                !(p == itemset@ && r == rule_id) ==> #[trigger] final(self).count_of(p, r)
                    == old(self).count_of(p, r),
    {
        self.root.insert(itemset, rule_id);
        proof {
            assert forall|p: Seq<i32>, r: i32| !(p == itemset@ && r == rule_id) implies #[trigger] self.count_of(
                p,
                r,
            ) == old(self).count_of(p, r) by {
                assert(self.root.count_at(p, r) == old(self).root.count_at(p, r));
            }
        }
    }

    /// Match a query: the result is exactly the sequence the trie traversal
    /// emits for `itemset`, which must not step down (a strictly ascending
    /// query always qualifies).
    pub fn matches(&self, itemset: &[i32]) -> (m: RuleMatches)
        requires
            self.wf(),
            nondecreasing(itemset@),
        ensures
            m.ids() == self.match_seq(itemset@),
    {
        let mut rule_ids: Vec<i32> = Vec::new();
        self.root.matches(itemset, &mut rule_ids);
        proof {
            assert(rule_ids@ =~= self.root.spec_match(itemset@));
        }
        RuleMatches::new(rule_ids)
    }

    /// Law: every stored rule whose antecedent `a` is a subset of the query
    /// `q` is reported, at least as often as it was stored at `a`.
    pub proof fn lemma_subset_complete(self, q: Seq<i32>, a: Seq<i32>, r: i32)
        requires
            strictly_ascending(q),
            strictly_ascending(a),
            within(a, q),
        ensures
            count_in(self.match_seq(q), r) >= self.count_of(a, r),
    {
        lemma_match_complete(self.root, q, a, r);
    }

    /// Law: a reported rule identifier is always stored at some strictly
    /// ascending sub-itemset of the query; the witness itemset is returned.
    pub proof fn lemma_subset_sound(self, q: Seq<i32>, r: i32) -> (a: Seq<i32>)
        requires
            strictly_ascending(q),
            count_in(self.match_seq(q), r) > 0,
        ensures
            strictly_ascending(a),
            within(a, q),
            self.count_of(a, r) > 0,
    {
        lemma_match_sound(self.root, q, r)
    }

    /// Law: a rule stored under the empty antecedent is reported against
    /// every query, the empty query included.
    pub proof fn lemma_empty_antecedent(self, q: Seq<i32>, r: i32)
        requires
            strictly_ascending(q),
        ensures
            count_in(self.match_seq(q), r) >= self.count_of(Seq::<i32>::empty(), r),
    {
        lemma_match_complete(self.root, q, Seq::<i32>::empty(), r);
    }

    /// Law: order independence of insertion. Two indexes that store the same
    /// rules the same number of times at the same antecedents — in whatever
    /// order the insertions that built them ran — report every rule
    /// identifier equally often for every query.
    pub proof fn lemma_order_independent(self, other: RuleTree, q: Seq<i32>, r: i32)
        requires
            forall|p: Seq<i32>, rr: i32| #[trigger] self.count_of(p, rr) == other.count_of(p, rr),
        ensures
            count_in(self.match_seq(q), r) == count_in(other.match_seq(q), r),
    {
        assert forall|p: Seq<i32>, rr: i32| #[trigger] self.root.count_at(p, rr)
            == other.root.count_at(p, rr) by {
            assert(self.count_of(p, rr) == other.count_of(p, rr));
        }
        lemma_match_determined(self.root, other.root, q, r);
    }
}

} // verus!
