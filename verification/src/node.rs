//! The trie node and its two algorithms: subset-preserving insertion and
//! subset-matching lookup over strictly ascending itemsets.

use vstd::prelude::*;
use vstd::slice::slice_subrange;

verus! {

/// One trie node. `item` is the item identifier the node is keyed on (the
/// root's value is never read), `children` holds the next nodes along stored
/// antecedents, strictly sorted by their key, and `rule_ids` holds the
/// identifiers of the rules whose antecedent ends exactly at this node, in
/// insertion order.
pub struct Node {
    pub item: i32,
    pub children: Vec<Node>,
    pub rule_ids: Vec<i32>,
}

/// How many occurrences of `r` the sequence `s` holds.
pub open spec fn count_in(s: Seq<i32>, r: i32) -> nat
    decreases s.len(),
{
    if s.len() == 0 {
        0
    } else {
        count_in(s.drop_last(), r) + if s.last() == r {
            1nat
        } else {
            0nat
        }
    }
}

/// `s` is strictly ascending: the shape every itemset is expected to take.
pub open spec fn strictly_ascending(s: Seq<i32>) -> bool {
    forall|a: int, b: int| 0 <= a < b < s.len() ==> s[a] < s[b]
}

/// `s` never decreases from one element to the next.
pub open spec fn nondecreasing(s: Seq<i32>) -> bool {
    forall|a: int, b: int| 0 <= a < b < s.len() ==> s[a] <= s[b]
}

/// Every element of `a` occurs somewhere in `q`: as itemsets, a is a subset
/// of q.
pub open spec fn within(a: Seq<i32>, q: Seq<i32>) -> bool {
    forall|x: i32| a.contains(x) ==> q.contains(x)
}

/// Some node in `kids` is keyed on `item`.
pub open spec fn kids_has(kids: Seq<Node>, item: i32) -> bool {
    exists|k: int| 0 <= k < kids.len() && kids[k].item == item
}

/// The index in `kids` of a node keyed on `item`; unique when the keys are
/// sorted.
pub open spec fn kids_idx(kids: Seq<Node>, item: i32) -> int {
    choose|k: int| 0 <= k < kids.len() && kids[k].item == item
}

impl Node {
    /// Some child of this node is keyed on `item`.
    pub open spec fn has_kid(self, item: i32) -> bool {
        kids_has(self.children@, item)
    }

    /// The index of a child keyed on `item`; unique when the children are
    /// sorted.
    pub open spec fn kid_idx(self, item: i32) -> int {
        kids_idx(self.children@, item)
    }

    /// The child keyed on `item`.
    pub open spec fn kid(self, item: i32) -> Node {
        self.children@[self.kid_idx(item)]
    }

    /// The children of this node alone are strictly sorted by key.
    pub open spec fn kids_sorted(self) -> bool {
        forall|a: int, b: int|
            0 <= a < b < self.children@.len() ==> #[trigger] self.children@[a].item
                < #[trigger] self.children@[b].item
    }

    /// Structural invariant of the whole subtree: every node's children are
    /// strictly sorted by key, so no two siblings share one.
    pub open spec fn wf(self) -> bool
        decreases self,
    {
        self.kids_sorted() && forall|k: int|
            0 <= k < self.children@.len() ==> (#[trigger] self.children@[k]).wf()
    }

    /// How many copies of rule `r` are stored at the end of `path` below this
    /// node. This is the abstract content of the trie: each insertion of an
    /// itemset raises exactly one of these counts by one.
    pub open spec fn count_at(self, path: Seq<i32>, r: i32) -> nat
        decreases path.len(),
    {
        if path.len() == 0 {
            count_in(self.rule_ids@, r)
        } else if self.has_kid(path[0]) {
            self.kid(path[0]).count_at(path.drop_first(), r)
        } else {
            0
        }
    }

    /// The exact sequence of rule identifiers a query emits from this node:
    /// first the node's own rules, then, for each query item in ascending
    /// order, whatever the child keyed on that item emits for the rest of the
    /// query.
    pub open spec fn spec_match(self, q: Seq<i32>) -> Seq<i32>
        decreases q.len(), q.len() + 1,
    {
        self.rule_ids@ + self.match_kids(q, 0)
    }

    /// What the children emit for the query items from position `i` on.
    pub open spec fn match_kids(self, q: Seq<i32>, i: int) -> Seq<i32>
        decreases q.len(), q.len() - i,
    {
        if i < 0 || i >= q.len() {
            Seq::empty()
        } else {
            (if self.has_kid(q[i]) {
                self.kid(q[i]).spec_match(q.skip(i + 1))
            } else {
                Seq::empty()
            }) + self.match_kids(q, i + 1)
        }
    }

    /// A node with no children and no rules stores nothing at all.
    pub proof fn lemma_bare_counts(self)
        requires
            self.children@.len() == 0,
            self.rule_ids@.len() == 0,
        ensures
            forall|p: Seq<i32>, r: i32| #[trigger] self.count_at(p, r) == 0,
    {
        assert forall|p: Seq<i32>, r: i32| #[trigger] self.count_at(p, r) == 0 by {
            if p.len() == 0 {
                assert(self.count_at(p, r) == count_in(self.rule_ids@, r));
            } else {
                assert(!self.has_kid(p[0]));
            }
        }
    }

    pub fn new(item: i32) -> (n: Node)
        ensures
            n.item == item,
            n.children@.len() == 0,
            n.rule_ids@.len() == 0,
            n.wf(),
            forall|p: Seq<i32>, r: i32| #[trigger] n.count_at(p, r) == 0,
    {
        let n = Node { item, children: Vec::new(), rule_ids: Vec::new() };
        proof {
            n.lemma_bare_counts();
        }
        n
    }

    /// Store `rule_id` under the antecedent `itemset`, read from this node
    /// downward: the stored count at exactly that path grows by one and every
    /// other count is untouched. The sibling invariant is preserved whatever
    /// the order of `itemset`.
    pub fn insert(&mut self, itemset: &[i32], rule_id: i32)
        requires
            old(self).wf(),
        ensures
            final(self).wf(),
            final(self).item == old(self).item,
            final(self).count_at(itemset@, rule_id) == old(self).count_at(itemset@, rule_id) + 1,
            forall|p: Seq<i32>, r: i32|
                !(p == itemset@ && r == rule_id) ==> #[trigger] final(self).count_at(p, r)
                    == old(self).count_at(p, r),
        decreases itemset@.len(),
    {
        if itemset.len() == 0 {
            let ghost pre = self.rule_ids@;
            self.rule_ids.push(rule_id);
            proof {
                assert(self.rule_ids@.drop_last() =~= pre);
                assert(self.children == old(self).children);
                assert forall|p: Seq<i32>, r: i32| !(p == itemset@ && r == rule_id) implies #[trigger] self.count_at(
                    p,
                    r,
                ) == old(self).count_at(p, r) by {
                    if p.len() == 0 {
                        assert(p =~= itemset@);
                        assert(count_in(self.rule_ids@, r) == count_in(pre, r));
                    }
                }
            }
            return ;
        }
        let head = itemset[0];
        let idx = self.child_index_mut(head);
        let ghost mid = *self;
        proof {
            if !old(self).has_kid(head) {
                lemma_fresh_kid_counts(*old(self), mid, idx as int);
            }
        }
        let mut child = self.children.remove(idx);
        let ghost child0 = child;
        let rest = slice_subrange(itemset, 1, itemset.len());
        child.insert(rest, rule_id);
        let ghost grown = child;
        self.children.insert(idx, child);
        proof {
            let ghost tl = itemset@.subrange(1, itemset@.len() as int);
            assert(mid.children@.update(idx as int, grown) =~= mid.children@.remove(
                idx as int,
            ).insert(idx as int, grown));
            assert(self.children@ == mid.children@.update(idx as int, grown));
            assert(child0 == mid.children@[idx as int]);
            assert(grown.item == head);
            assert forall|a: int, b: int|
                0 <= a < b < self.children@.len() implies #[trigger] self.children@[a].item
                < #[trigger] self.children@[b].item by {
                assert(self.children@[a].item == mid.children@[a].item);
                assert(self.children@[b].item == mid.children@[b].item);
            }
            assert forall|k: int|
                0 <= k < self.children@.len() implies (#[trigger] self.children@[k]).wf() by {
                if k != idx as int {
                    assert(self.children@[k] == mid.children@[k]);
                }
            }
            lemma_grown_kid_counts(mid, *self, idx as int, tl, rule_id);
            assert(seq![head] + tl =~= itemset@);
            assert(self.count_at(itemset@, rule_id) == mid.count_at(itemset@, rule_id) + 1);
            assert forall|p: Seq<i32>, r: i32| !(p == itemset@ && r == rule_id) implies #[trigger] self.count_at(
                p,
                r,
            ) == old(self).count_at(p, r) by {
                assert(self.count_at(p, r) == mid.count_at(p, r));
                assert(mid.count_at(p, r) == old(self).count_at(p, r));
            }
            assert(mid.count_at(itemset@, rule_id) == old(self).count_at(itemset@, rule_id));
        }
    }

    /// Append to `result` the identifier of every rule stored under this node
    /// that the query emits: this node's own rules first, then, walking the
    /// sorted children and the sorted query with two forward-only cursors,
    /// whatever each child keyed on a query item emits for the rest of the
    /// query.
    pub fn matches(&self, itemset: &[i32], result: &mut Vec<i32>)
        requires
            self.wf(),
            nondecreasing(itemset@),
        ensures
            final(result)@ == old(result)@ + self.spec_match(itemset@),
        decreases itemset@.len(),
    {
        let ghost base = result@;
        let mut c: usize = 0;
        while c < self.rule_ids.len()
            invariant
                c <= self.rule_ids@.len(),
                result@ == base + self.rule_ids@.subrange(0, c as int),
            decreases self.rule_ids@.len() - c,
        {
            result.push(self.rule_ids[c]);
            proof {
                assert(result@ =~= base + self.rule_ids@.subrange(0, c as int + 1));
            }
            c += 1;
        }
        proof {
            assert(self.rule_ids@.subrange(0, self.rule_ids@.len() as int) =~= self.rule_ids@);
            assert(base + self.spec_match(itemset@) =~= (base + self.rule_ids@) + self.match_kids(
                itemset@,
                0,
            ));
        }
        let mut j: usize = 0;
        let mut i: usize = 0;
        while i < itemset.len()
            invariant
                self.wf(),
                nondecreasing(itemset@),
                i <= itemset@.len(),
                j <= self.children@.len(),
                i < itemset@.len() ==> forall|k: int|
                    0 <= k < j ==> #[trigger] self.children@[k].item < itemset@[i as int],
                base + self.spec_match(itemset@) == result@ + self.match_kids(itemset@, i as int),
            decreases itemset@.len() - i,
        {
            let item = itemset[i];
            while j < self.children.len() && self.children[j].item < item
                invariant
                    j <= self.children@.len(),
                    forall|k: int| 0 <= k < j ==> #[trigger] self.children@[k].item < item,
                decreases self.children@.len() - j,
            {
                j += 1;
            }
            if j == self.children.len() {
                proof {
                    assert forall|i2: int|
                        i as int <= i2 < itemset@.len() implies !self.has_kid(
                        #[trigger] itemset@[i2],
                    ) by {
                        assert forall|k: int|
                            0 <= k < self.children@.len() implies #[trigger] self.children@[k].item
                            != itemset@[i2] by {
                            assert(self.children@[k].item < item);
                            assert(itemset@[i as int] <= itemset@[i2]);
                        }
                    }
                    lemma_match_kids_none(*self, itemset@, i as int);
                    assert(result@ + self.match_kids(itemset@, i as int) =~= result@);
                    assert(result@ + self.match_kids(itemset@, itemset@.len() as int) =~= result@);
                }
                i = itemset.len();
            } else {
                let found = self.children[j].item == item;
                if found {
                    let rest = slice_subrange(itemset, i + 1, itemset.len());
                    proof {
                        lemma_kid_unique(*self, j as int, item);
                        assert(self.children@[j as int].wf());
                        assert(rest@ =~= itemset@.skip(i as int + 1));
                        assert forall|a: int, b: int|
                            0 <= a < b < rest@.len() implies #[trigger] rest@[a]
                            <= #[trigger] rest@[b] by {
                            assert(itemset@[a + i + 1] <= itemset@[b + i + 1]);
                        }
                    }
                    let ghost before = result@;
                    self.children[j].matches(rest, result);
                    proof {
                        assert(rest@ =~= itemset@.skip(i as int + 1));
                        assert(self.match_kids(itemset@, i as int) == self.kid(item).spec_match(
                            itemset@.skip(i as int + 1),
                        ) + self.match_kids(itemset@, i as int + 1));
                        assert((before + self.children@[j as int].spec_match(rest@))
                            + self.match_kids(itemset@, i as int + 1) =~= before + self.match_kids(
                            itemset@,
                            i as int,
                        ));
                    }
                } else {
                    proof {
                        assert forall|k: int|
                            0 <= k < self.children@.len() implies #[trigger] self.children@[k].item
                            != item by {
                            if k >= j as int {
                                if k > j as int {
                                    assert(self.children@[j as int].item
                                        < self.children@[k].item);
                                }
                            }
                        }
                        assert(!self.has_kid(item));
                        assert(self.match_kids(itemset@, i as int) =~= Seq::<i32>::empty()
                            + self.match_kids(itemset@, i as int + 1));
                        assert(result@ + self.match_kids(itemset@, i as int) =~= result@
                            + self.match_kids(itemset@, i as int + 1));
                    }
                }
                i += 1;
            }
        }
        proof {
            assert(result@ + self.match_kids(itemset@, itemset@.len() as int) =~= result@);
            assert(result@ =~= base + self.spec_match(itemset@));
        }
    }

    /// Find the child keyed on `item`, creating it at its sorted position if
    /// it is missing, and return its index. The sibling invariant is kept.
    fn child_index_mut(&mut self, item: i32) -> (idx: usize)
        requires
            old(self).wf(),
        ensures
            final(self).wf(),
            final(self).item == old(self).item,
            final(self).rule_ids@ == old(self).rule_ids@,
            idx < final(self).children@.len(),
            final(self).children@[idx as int].item == item,
            old(self).has_kid(item) ==> *final(self) == *old(self),
            !old(self).has_kid(item) ==> {
                &&& final(self).children@.len() == old(self).children@.len() + 1
                &&& (forall|k: int|
                    0 <= k < idx ==> final(self).children@[k] == old(self).children@[k])
                &&& (forall|k: int|
                    idx < k < final(self).children@.len() ==> final(self).children@[k]
                        == old(self).children@[k - 1])
                &&& final(self).children@[idx as int].children@.len() == 0
                &&& final(self).children@[idx as int].rule_ids@.len() == 0
            },
    {
        let n = self.children.len();
        let mut i: usize = 0;
        while i < n
            invariant
                old(self).wf(),
                *self == *old(self),
                n == self.children@.len(),
                i <= n,
                forall|k: int| 0 <= k < i ==> #[trigger] self.children@[k].item < item,
            decreases n - i,
        {
            let ci = self.children[i].item;
            if ci == item {
                return i;
            }
            if ci > item {
                proof {
                    assert forall|k: int|
                        0 <= k < self.children@.len() implies #[trigger] self.children@[k].item
                        != item by {
                        if k > i as int {
                            assert(self.children@[i as int].item < self.children@[k].item);
                        }
                    }
                    assert(!old(self).has_kid(item));
                }
                let fresh = Node::new(item);
                let ghost pre = self.children@;
                self.children.insert(i, fresh);
                proof {
                    pre.insert_ensures(i as int, fresh);
                    assert forall|a: int, b: int|
                        0 <= a < b < self.children@.len() implies #[trigger] self.children@[a].item
                        < #[trigger] self.children@[b].item by {
                        if b < i as int {
                        } else if a == i as int {
                            assert(self.children@[b] == pre[b - 1]);
                            assert(pre[b - 1].item > item);
                        } else if b == i as int {
                            assert(self.children@[a] == pre[a]);
                        } else if a > i as int {
                            assert(self.children@[a] == pre[a - 1]);
                            assert(self.children@[b] == pre[b - 1]);
                        } else {
                            // a < i < b
                            assert(self.children@[a] == pre[a]);
                            assert(self.children@[b] == pre[b - 1]);
                            assert(pre[b - 1].item > item);
                        }
                    }
                    assert forall|k: int|
                        0 <= k < self.children@.len() implies (#[trigger] self.children@[k]).wf()
                        by {
                        if k < i as int {
                            assert(self.children@[k] == pre[k]);
                        } else if k > i as int {
                            assert(self.children@[k] == pre[k - 1]);
                        }
                    }
                }
                return i;
            }
            i += 1;
        }
        proof {
            assert forall|k: int|
                0 <= k < self.children@.len() implies #[trigger] self.children@[k].item != item by {
                assert(self.children@[k].item < item);
            }
            assert(!old(self).has_kid(item));
        }
        let fresh = Node::new(item);
        let ghost pre = self.children@;
        self.children.push(fresh);
        proof {
            assert(self.children@ =~= pre.insert(pre.len() as int, fresh));
            pre.insert_ensures(pre.len() as int, fresh);
            assert forall|a: int, b: int|
                0 <= a < b < self.children@.len() implies #[trigger] self.children@[a].item
                < #[trigger] self.children@[b].item by {
                if b < pre.len() {
                    assert(self.children@[a] == pre[a]);
                    assert(self.children@[b] == pre[b]);
                } else {
                    assert(self.children@[a] == pre[a]);
                    assert(pre[a].item < item);
                }
            }
            assert forall|k: int|
                0 <= k < self.children@.len() implies (#[trigger] self.children@[k]).wf() by {
                if k < pre.len() {
                    assert(self.children@[k] == pre[k]);
                }
            }
        }
        self.children.len() - 1
    }
}

/// When no child is keyed on any remaining query item, the children emit
/// nothing more.
pub proof fn lemma_match_kids_none(n: Node, q: Seq<i32>, i: int)
    requires
        forall|i2: int| i <= i2 < q.len() ==> !n.has_kid(#[trigger] q[i2]),
    ensures
        n.match_kids(q, i) =~= Seq::<i32>::empty(),
    decreases q.len() - i,
{
    if i < 0 || i >= q.len() {
    } else {
        lemma_match_kids_none(n, q, i + 1);
        assert(!n.has_kid(q[i]));
    }
}

/// A child keyed on `item` is unique among strictly sorted siblings, so the
/// chosen index is the one where it stands.
pub proof fn lemma_kid_unique(n: Node, j: int, item: i32)
    requires
        n.kids_sorted(),
        0 <= j < n.children@.len(),
        n.children@[j].item == item,
    ensures
        n.has_kid(item),
        n.kid_idx(item) == j,
        n.kid(item) == n.children@[j],
{
    assert(n.has_kid(item));
    let k = n.kid_idx(item);
    assert(0 <= k < n.children@.len() && n.children@[k].item == item);
    if k < j {
        assert(n.children@[k].item < n.children@[j].item);
    }
    if k > j {
        assert(n.children@[j].item < n.children@[k].item);
    }
}

/// Slipping an empty child in among the siblings stores nothing new: every
/// count is what it was.
proof fn lemma_fresh_kid_counts(pre: Node, post: Node, idx: int)
    requires
        pre.kids_sorted(),
        post.kids_sorted(),
        0 <= idx < post.children@.len(),
        post.item == pre.item,
        post.rule_ids@ == pre.rule_ids@,
        post.children@.len() == pre.children@.len() + 1,
        forall|k: int| 0 <= k < idx ==> post.children@[k] == pre.children@[k],
        forall|k: int|
            idx < k < post.children@.len() ==> post.children@[k] == pre.children@[k - 1],
        post.children@[idx].children@.len() == 0,
        post.children@[idx].rule_ids@.len() == 0,
        !pre.has_kid(post.children@[idx].item),
    ensures
        forall|p: Seq<i32>, r: i32| #[trigger] post.count_at(p, r) == pre.count_at(p, r),
{
    let it = post.children@[idx].item;
    assert forall|p: Seq<i32>, r: i32| #[trigger] post.count_at(p, r) == pre.count_at(p, r) by {
        if p.len() == 0 {
        } else if p[0] == it {
            lemma_kid_unique(post, idx, it);
            post.children@[idx].lemma_bare_counts();
            assert(post.children@[idx].count_at(p.drop_first(), r) == 0);
            assert(post.count_at(p, r) == 0);
            assert(pre.count_at(p, r) == 0);
        } else {
            let x = p[0];
            if pre.has_kid(x) {
                let k1 = pre.kid_idx(x);
                assert(0 <= k1 < pre.children@.len() && pre.children@[k1].item == x);
                let k2: int = if k1 < idx {
                    k1
                } else {
                    k1 + 1
                };
                assert(post.children@[k2] == pre.children@[k1]);
                lemma_kid_unique(pre, k1, x);
                lemma_kid_unique(post, k2, x);
                assert(post.kid(x) == pre.kid(x));
            } else {
                if post.has_kid(x) {
                    let k2 = post.kid_idx(x);
                    assert(0 <= k2 < post.children@.len() && post.children@[k2].item == x);
                    let k1: int = if k2 < idx {
                        k2
                    } else {
                        k2 - 1
                    };
                    assert(pre.children@[k1].item == x);
                    assert(pre.has_kid(x));
                }
                assert(post.count_at(p, r) == 0);
                assert(pre.count_at(p, r) == 0);
            }
        }
    }
}

/// Replacing the child at `idx` by one with the same key whose counts grew by
/// one copy of `rid` at `tail` grows the parent's counts by one copy of `rid`
/// at the path that goes through that child, and changes nothing else.
proof fn lemma_grown_kid_counts(pre: Node, post: Node, idx: int, tail: Seq<i32>, rid: i32)
    requires
        pre.kids_sorted(),
        post.kids_sorted(),
        0 <= idx < pre.children@.len(),
        post.item == pre.item,
        post.rule_ids@ == pre.rule_ids@,
        post.children@.len() == pre.children@.len(),
        forall|k: int|
            0 <= k < pre.children@.len() && k != idx ==> post.children@[k] == pre.children@[k],
        post.children@[idx].item == pre.children@[idx].item,
        post.children@[idx].count_at(tail, rid) == pre.children@[idx].count_at(tail, rid) + 1,
        forall|p: Seq<i32>, r: i32|
            !(p == tail && r == rid) ==> #[trigger] post.children@[idx].count_at(p, r)
                == pre.children@[idx].count_at(p, r),
    ensures
        post.count_at(seq![pre.children@[idx].item] + tail, rid) == pre.count_at(
            seq![pre.children@[idx].item] + tail,
            rid,
        ) + 1,
        forall|p: Seq<i32>, r: i32|
            !(p == seq![pre.children@[idx].item] + tail && r == rid) ==> #[trigger] post.count_at(
                p,
                r,
            ) == pre.count_at(p, r),
{
    let head = pre.children@[idx].item;
    let full = seq![head] + tail;
    assert(full[0] == head);
    assert(full.drop_first() =~= tail);
    lemma_kid_unique(pre, idx, head);
    lemma_kid_unique(post, idx, head);
    assert(post.count_at(full, rid) == post.children@[idx].count_at(tail, rid));
    assert(pre.count_at(full, rid) == pre.children@[idx].count_at(tail, rid));
    assert forall|p: Seq<i32>, r: i32| !(p == full && r == rid) implies #[trigger] post.count_at(
        p,
        r,
    ) == pre.count_at(p, r) by {
        if p.len() == 0 {
        } else if p[0] == head {
            assert(post.count_at(p, r) == post.children@[idx].count_at(p.drop_first(), r));
            assert(pre.count_at(p, r) == pre.children@[idx].count_at(p.drop_first(), r));
            if p.drop_first() == tail && r == rid {
                assert(p =~= full);
            } else {
                assert(post.children@[idx].count_at(p.drop_first(), r) == pre.children@[idx]
                    .count_at(p.drop_first(), r));
            }
        } else {
            let x = p[0];
            if pre.has_kid(x) {
                let k1 = pre.kid_idx(x);
                assert(0 <= k1 < pre.children@.len() && pre.children@[k1].item == x);
                assert(k1 != idx);
                lemma_kid_unique(pre, k1, x);
                lemma_kid_unique(post, k1, x);
                assert(post.kid(x) == pre.kid(x));
            } else {
                if post.has_kid(x) {
                    let k2 = post.kid_idx(x);
                    assert(0 <= k2 < post.children@.len() && post.children@[k2].item == x);
                    assert(k2 != idx);
                    assert(pre.children@[k2].item == x);
                }
            }
        }
    }
}

} // verus!
