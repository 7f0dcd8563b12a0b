use vstd::multiset::Multiset;
use vstd::prelude::*;

use crate::{Heap, HeapResult, Policy};

verus! {

broadcast use vstd::multiset::group_multiset_axioms;

/// An array-backed binary heap over `i64` keys with arbitrary associated
/// values, ordered min-first or max-first by its `Policy`.
pub struct BinaryHeap<V> {
    heap: Vec<(i64, V)>,
    policy: Policy,
}

/// The key of a stored slot, as a mathematical integer.
pub open spec fn key_of<V>(p: (i64, V)) -> int {
    p.0 as int
}

/// The `(key, value)` pair of a stored slot, with the key widened.
pub open spec fn pair_of<V>(p: (i64, V)) -> (int, V) {
    (p.0 as int, p.1)
}

/// The multiset of `(key, value)` pairs held in a sequence of heap slots.
pub open spec fn pairs_bag<V>(s: Seq<(i64, V)>) -> Multiset<(int, V)>
    decreases s.len(),
{
    if s.len() == 0 {
        Multiset::empty()
    } else {
        pairs_bag(s.drop_last()).insert(pair_of(s.last()))
    }
}

/// Every slot except a designated one is no better than its parent slot.
pub open spec fn heap_ordered_except<V>(s: Seq<(i64, V)>, policy: Policy, x: int) -> bool {
    forall|i: int|
        #![trigger s[i]]
        1 <= i < s.len() && i != x ==> !policy.better_spec(key_of(s[i]), key_of(s[(i - 1) / 2]))
}

/// Every slot except the children of a designated one is no better than
/// its parent slot.
pub open spec fn heap_ordered_except_below<V>(s: Seq<(i64, V)>, policy: Policy, x: int) -> bool {
    forall|i: int|
        #![trigger s[i]]
        1 <= i < s.len() && (i - 1) / 2 != x ==> !policy.better_spec(
            key_of(s[i]),
            key_of(s[(i - 1) / 2]),
        )
}

/// The binary-heap shape invariant: no slot is better than its parent.
pub open spec fn heap_ordered<V>(s: Seq<(i64, V)>, policy: Policy) -> bool {
    forall|i: int|
        #![trigger s[i]]
        1 <= i < s.len() ==> !policy.better_spec(key_of(s[i]), key_of(s[(i - 1) / 2]))
}

/// All children of slot `x` are no better than the key of slot `anchor`.
pub open spec fn children_dominated_by<V>(
    s: Seq<(i64, V)>,
    policy: Policy,
    anchor: int,
    x: int,
) -> bool {
    forall|c: int|
        #![trigger s[c]]
        1 <= c < s.len() && (c - 1) / 2 == x ==> !policy.better_spec(
            key_of(s[c]),
            key_of(s[anchor]),
        )
}

/// The bag of a slot sequence has exactly one element per slot.
proof fn lemma_pairs_bag_len<V>(s: Seq<(i64, V)>)
    ensures
        pairs_bag(s).len() == s.len(),
    decreases s.len(),
{
    if s.len() > 0 {
        lemma_pairs_bag_len(s.drop_last());
    }
}

/// Appending a slot inserts its pair into the bag.
proof fn lemma_pairs_bag_push<V>(s: Seq<(i64, V)>, x: (i64, V))
    ensures
        pairs_bag(s.push(x)) == pairs_bag(s).insert(pair_of(x)),
{
    assert(s.push(x).drop_last() =~= s);
    assert(s.push(x).last() == x);
}

/// Dropping the last slot removes its pair from the bag.
proof fn lemma_pairs_bag_drop_last<V>(s: Seq<(i64, V)>)
    requires
        s.len() > 0,
    ensures
        pairs_bag(s.drop_last()) == pairs_bag(s).remove(pair_of(s.last())),
{
    assert(pairs_bag(s.drop_last()) =~= pairs_bag(s.drop_last()).insert(pair_of(s.last())).remove(
        pair_of(s.last()),
    ));
}

/// The pair stored in any slot is contained in the bag.
proof fn lemma_pairs_bag_contains<V>(s: Seq<(i64, V)>, i: int)
    requires
        0 <= i < s.len(),
    ensures
        pairs_bag(s).count(pair_of(s[i])) >= 1,
    decreases s.len(),
{
    if i == s.len() - 1 {
    } else {
        lemma_pairs_bag_contains(s.drop_last(), i);
        assert(s.drop_last()[i] == s[i]);
    }
}

/// Overwriting one slot removes its old pair and inserts the new one.
proof fn lemma_pairs_bag_update<V>(s: Seq<(i64, V)>, i: int, x: (i64, V))
    requires
        0 <= i < s.len(),
    ensures
        pairs_bag(s.update(i, x)) == pairs_bag(s).remove(pair_of(s[i])).insert(pair_of(x)),
    decreases s.len(),
{
    lemma_pairs_bag_contains(s, i);
    if i == s.len() - 1 {
        assert(s.update(i, x).drop_last() =~= s.drop_last());
        assert(pairs_bag(s.update(i, x)) =~= pairs_bag(s).remove(pair_of(s[i])).insert(pair_of(x)));
    } else {
        assert(s.update(i, x).drop_last() =~= s.drop_last().update(i, x));
        lemma_pairs_bag_update(s.drop_last(), i, x);
        assert(s.drop_last()[i] == s[i]);
        lemma_pairs_bag_contains(s.drop_last(), i);
        assert(pairs_bag(s.update(i, x)) =~= pairs_bag(s).remove(pair_of(s[i])).insert(pair_of(x)));
    }
}

/// Swapping two distinct slots leaves the bag unchanged.
proof fn lemma_pairs_bag_swap<V>(s: Seq<(i64, V)>, i: int, j: int)
    requires
        0 <= i < s.len(),
        0 <= j < s.len(),
        i != j,
    ensures
        pairs_bag(s.update(i, s[j]).update(j, s[i])) == pairs_bag(s),
{
    let s1 = s.update(i, s[j]);
    lemma_pairs_bag_update(s, i, s[j]);
    lemma_pairs_bag_update(s1, j, s[i]);
    lemma_pairs_bag_contains(s, i);
    assert(s1[j] == s[j]);
    assert(pairs_bag(s1.update(j, s[i])) =~= pairs_bag(s));
}

/// Any pair contained in the bag sits in some slot.
proof fn lemma_pairs_bag_exists<V>(s: Seq<(i64, V)>, p: (int, V))
    requires
        pairs_bag(s).count(p) >= 1,
    ensures
        exists|i: int| 0 <= i < s.len() && pair_of(s[i]) == p,
    decreases s.len(),
{
    if s.len() > 0 {
        if pair_of(s.last()) == p {
            assert(pair_of(s[s.len() - 1]) == p);
        } else {
            lemma_pairs_bag_exists(s.drop_last(), p);
            let i = choose|i: int| 0 <= i < s.drop_last().len() && pair_of(s.drop_last()[i]) == p;
            assert(pair_of(s[i]) == p);
        }
    }
}

/// In a heap-ordered sequence, every slot is dominated by the root slot.
proof fn lemma_heap_root_extremal<V>(s: Seq<(i64, V)>, policy: Policy, i: int)
    requires
        heap_ordered(s, policy),
        0 <= i < s.len(),
    ensures
        !policy.better_spec(key_of(s[i]), key_of(s[0])),
    decreases i,
{
    if i > 0 {
        lemma_heap_root_extremal(s, policy, (i - 1) / 2);
    }
}

impl<V> View for BinaryHeap<V> {
    type V = Multiset<(int, V)>;

    closed spec fn view(&self) -> Multiset<(int, V)> {
        pairs_bag(self.heap@)
    }
}

/// The multiset of `(key, value)` pairs of a slot sequence, with the
/// keys kept at their stored type.
spec fn pairs_bag_keyed<V>(s: Seq<(i64, V)>) -> Multiset<(i64, V)>
    decreases s.len(),
{
    if s.len() == 0 {
        Multiset::empty()
    } else {
        pairs_bag_keyed(s.drop_last()).insert(s.last())
    }
}

/// The keyed bag counts every pair exactly as the widened bag does.
proof fn lemma_pairs_bag_keyed_count<V>(s: Seq<(i64, V)>, p: (i64, V))
    ensures
        pairs_bag_keyed(s).count(p) == pairs_bag(s).count((p.0 as int, p.1)),
    decreases s.len(),
{
    if s.len() > 0 {
        lemma_pairs_bag_keyed_count(s.drop_last(), p);
    }
}

/// The keyed bag has exactly one element per slot.
proof fn lemma_pairs_bag_keyed_len<V>(s: Seq<(i64, V)>)
    ensures
        pairs_bag_keyed(s).len() == s.len(),
    decreases s.len(),
{
    if s.len() > 0 {
        lemma_pairs_bag_keyed_len(s.drop_last());
    }
}

impl<V> Heap<i64, V> for BinaryHeap<V> {
    closed spec fn well_formed(&self) -> bool {
        heap_ordered(self.heap@, self.policy)
    }

    closed spec fn contents(&self) -> Multiset<(i64, V)> {
        pairs_bag_keyed(self.heap@)
    }

    closed spec fn prefers(&self, a: i64, b: i64) -> bool {
        self.policy.better_spec(a as int, b as int)
    }

    fn push(&mut self, key: i64, val: V) -> (r: HeapResult) {
        let r = BinaryHeap::push(self, key, val);
        proof {
            assert(self.contents() =~= old(self).contents().insert((key, val))) by {
                assert forall|p: (i64, V)|
                    self.contents().count(p) == old(self).contents().insert((key, val)).count(
                        p,
                    ) by {
                    lemma_pairs_bag_keyed_count(self.heap@, p);
                    lemma_pairs_bag_keyed_count(old(self).heap@, p);
                }
            }
        }
        r
    }

    fn pop(&mut self) -> (r: Option<(i64, V)>) {
        let r = BinaryHeap::pop(self);
        proof {
            lemma_pairs_bag_keyed_len(old(self).heap@);
            lemma_pairs_bag_len(old(self).heap@);
            if r is Some {
                let kv = r->Some_0;
                lemma_pairs_bag_keyed_count(old(self).heap@, kv);
                assert(self.contents() =~= old(self).contents().remove(kv)) by {
                    assert forall|p: (i64, V)|
                        self.contents().count(p) == old(self).contents().remove(kv).count(p) by {
                        lemma_pairs_bag_keyed_count(self.heap@, p);
                        lemma_pairs_bag_keyed_count(old(self).heap@, p);
                    }
                }
                assert forall|p: (i64, V)|
                    old(self).contents().contains(p) implies !old(self).prefers(p.0, kv.0) by {
                    lemma_pairs_bag_keyed_count(old(self).heap@, p);
                    assert(old(self)@.contains((p.0 as int, p.1)));
                }
            }
        }
        r
    }

    fn len(&self) -> (n: usize) {
        proof {
            lemma_pairs_bag_keyed_len(self.heap@);
            lemma_pairs_bag_len(self.heap@);
        }
        BinaryHeap::len(self)
    }

    fn is_empty(&self) -> (r: bool) {
        proof {
            lemma_pairs_bag_keyed_len(self.heap@);
            lemma_pairs_bag_len(self.heap@);
        }
        BinaryHeap::is_empty(self)
    }

    fn peek(&self) -> (r: Option<(&i64, &V)>) {
        let r = BinaryHeap::peek(self);
        proof {
            lemma_pairs_bag_keyed_len(self.heap@);
            lemma_pairs_bag_len(self.heap@);
            if r is Some {
                let kv = r->Some_0;
                lemma_pairs_bag_keyed_count(self.heap@, (*kv.0, *kv.1));
                assert forall|p: (i64, V)| self.contents().contains(p) implies !self.prefers(
                    p.0,
                    *kv.0,
                ) by {
                    lemma_pairs_bag_keyed_count(self.heap@, p);
                    assert(self@.contains((p.0 as int, p.1)));
                }
            }
        }
        r
    }
}

/// Parent slot of a non-root slot.
fn parent_of(idx: usize) -> (r: usize)
    requires
        idx >= 1,
    ensures
        r == (idx - 1) as int / 2,
        r < idx,
{
    (idx - 1) / 2
}

/// Left child slot.
fn lchild_of(idx: usize) -> (r: usize)
    requires
        2 * idx + 1 <= usize::MAX,
    ensures
        r == 2 * idx + 1,
{
    idx * 2 + 1
}

/// Right child slot.
fn rchild_of(idx: usize) -> (r: usize)
    requires
        2 * idx + 2 <= usize::MAX,
    ensures
        r == 2 * idx + 2,
{
    idx * 2 + 2
}

/// Relies on slice::swap (reached through `Vec`'s `DerefMut`): exchanges
/// the elements at positions `i` and `j`, leaving the rest of the vector
/// unchanged.
#[verifier::external_body]
fn swap_slots<V>(v: &mut Vec<(i64, V)>, i: usize, j: usize)
    requires
        i < old(v)@.len(),
        j < old(v)@.len(),
    ensures
        final(v)@ == old(v)@.update(i as int, old(v)@[j as int]).update(j as int, old(v)@[i as int]),
{
    v.swap(i, j);
}

impl<V> BinaryHeap<V> {
    /// The ordering policy this heap was created with.
    pub closed spec fn policy_spec(self) -> Policy {
        self.policy
    }

    /// A min-first binary heap.
    pub fn new_min() -> (r: Self)
        ensures
            r.well_formed(),
            r@ == Multiset::<(int, V)>::empty(),
            r.policy_spec() == Policy::Min,
    {
        Self { heap: Vec::new(), policy: Policy::Min }
    }

    /// A max-first binary heap.
    pub fn new_max() -> (r: Self)
        ensures
            r.well_formed(),
            r@ == Multiset::<(int, V)>::empty(),
            r.policy_spec() == Policy::Max,
    {
        Self { heap: Vec::new(), policy: Policy::Max }
    }

    /// Number of entries stored.
    pub fn len(&self) -> (n: usize)
        ensures
            n == self@.len(),
    {
        proof {
            lemma_pairs_bag_len(self.heap@);
        }
        self.heap.len()
    }

    /// True exactly when no entry is stored.
    pub fn is_empty(&self) -> (r: bool)
        ensures
            r == (self@.len() == 0),
    {
        proof {
            lemma_pairs_bag_len(self.heap@);
        }
        self.heap.len() == 0
    }

    /// True when the key in slot `i` is strictly better than the key in
    /// slot `j` under the heap's policy.
    fn should_heigher(&self, i: usize, j: usize) -> (r: bool)
        requires
            i < self.heap@.len(),
            j < self.heap@.len(),
        ensures
            r == self.policy.better_spec(key_of(self.heap@[i as int]), key_of(self.heap@[j as int])),
    {
        self.policy.better(self.heap[i].0, self.heap[j].0)
    }

    /// Insert a new entry.  Always succeeds.
    pub fn push(&mut self, key: i64, val: V) -> (r: HeapResult)
        requires
            old(self).well_formed(),
        ensures
            r is Ok,
            final(self).well_formed(),
            final(self).policy_spec() == old(self).policy_spec(),
            final(self)@ == old(self)@.insert((key as int, val)),
    {
        proof {
            lemma_pairs_bag_push(self.heap@, (key, val));
        }
        self.heap.push((key, val));
        self.heapify_button_up();
        Ok(())
    }

    /// Restore heap order after the last slot was appended, by swapping
    /// the new entry upward until its parent is at least as good.
    fn heapify_button_up(&mut self)
        requires
            old(self).heap@.len() >= 1,
            heap_ordered_except(old(self).heap@, old(self).policy, old(self).heap@.len() - 1),
        ensures
            final(self).policy == old(self).policy,
            final(self).heap@.len() == old(self).heap@.len(),
            pairs_bag(final(self).heap@) == pairs_bag(old(self).heap@),
            heap_ordered(final(self).heap@, final(self).policy),
    {
        let mut curr: usize = self.heap.len() - 1;
        let mut go: bool = true;
        proof {
            let s = self.heap@;
            let pl = self.policy;
            assert forall|c: int|
                #![trigger s[c]]
                1 <= c < s.len() && (c - 1) / 2 == curr as int implies !pl.better_spec(
                key_of(s[c]),
                key_of(s[(curr as int - 1) / 2]),
            ) by {
                assert(c >= 2 * curr + 1);
            }
        }
        while go && curr > 0
            invariant
                self.heap@.len() == old(self).heap@.len(),
                self.policy == old(self).policy,
                curr < self.heap@.len(),
                pairs_bag(self.heap@) == pairs_bag(old(self).heap@),
                heap_ordered_except(self.heap@, self.policy, curr as int),
                go && curr > 0 ==> children_dominated_by(
                    self.heap@,
                    self.policy,
                    (curr as int - 1) / 2,
                    curr as int,
                ),
                !go ==> heap_ordered(self.heap@, self.policy),
            decreases curr + (if go {
                1int
            } else {
                0int
            }),
        {
            let parent = parent_of(curr);
            if !self.should_heigher(parent, curr) {
                let ghost s = self.heap@;
                let ghost pl = self.policy;
                let ghost ci = curr as int;
                let ghost pi = parent as int;
                swap_slots(&mut self.heap, parent, curr);
                proof {
                    lemma_pairs_bag_swap(s, pi, ci);
                    let s2 = self.heap@;
                    assert(s2 =~= s.update(pi, s[ci]).update(ci, s[pi]));
                    assert forall|i: int|
                        #![trigger s2[i]]
                        1 <= i < s2.len() && i != pi implies !pl.better_spec(
                        key_of(s2[i]),
                        key_of(s2[(i - 1) / 2]),
                    ) by {
                        let f = (i - 1) / 2;
                        assert(0 <= f < i);
                        if i == ci {
                        } else if f == ci {
                            assert(!pl.better_spec(key_of(s[i]), key_of(s[pi])));
                        } else if f == pi {
                            assert(!pl.better_spec(key_of(s[i]), key_of(s[f])));
                            assert(!pl.better_spec(key_of(s[pi]), key_of(s[ci])));
                        } else {
                            assert(!pl.better_spec(key_of(s[i]), key_of(s[f])));
                        }
                    }
                    if pi > 0 {
                        let gp = (pi - 1) / 2;
                        assert forall|c: int|
                            #![trigger s2[c]]
                            1 <= c < s2.len() && (c - 1) / 2 == pi implies !pl.better_spec(
                            key_of(s2[c]),
                            key_of(s2[gp]),
                        ) by {
                            assert(0 <= gp < pi);
                            assert(!pl.better_spec(key_of(s[pi]), key_of(s[gp])));
                            if c == ci {
                            } else {
                                assert(!pl.better_spec(key_of(s[c]), key_of(s[pi])));
                            }
                        }
                    }
                }
                curr = parent;
            } else {
                proof {
                    let s = self.heap@;
                    let pl = self.policy;
                    assert forall|i: int| #![trigger s[i]] 1 <= i < s.len() implies !pl.better_spec(
                        key_of(s[i]),
                        key_of(s[(i - 1) / 2]),
                    ) by {
                        if i == curr as int {
                            assert((i - 1) / 2 == parent as int);
                        }
                    }
                }
                go = false;
            }
        }
        proof {
            if go {
                let s = self.heap@;
                let pl = self.policy;
                assert forall|i: int| #![trigger s[i]] 1 <= i < s.len() implies !pl.better_spec(
                    key_of(s[i]),
                    key_of(s[(i - 1) / 2]),
                ) by {
                    assert(i != curr as int);
                }
            }
        }
    }

    /// Remove and return the best entry; `None` exactly when empty.
    pub fn pop(&mut self) -> (r: Option<(i64, V)>)
        requires
            old(self).well_formed(),
        ensures
            final(self).well_formed(),
            final(self).policy_spec() == old(self).policy_spec(),
            (r is Some) <==> old(self)@.len() > 0,
            r is None ==> *final(self) == *old(self),
            r matches Some(kv) ==> {
                &&& old(self)@.contains((kv.0 as int, kv.1))
                &&& final(self)@ == old(self)@.remove((kv.0 as int, kv.1))
                &&& forall|p: (int, V)|
                    old(self)@.contains(p) ==> !old(self).policy_spec().better_spec(
                        p.0,
                        kv.0 as int,
                    )
            },
    {
        proof {
            lemma_pairs_bag_len(self.heap@);
        }
        let n = self.heap.len();
        if n == 0 {
            None
        } else {
            let ghost s0 = self.heap@;
            let ghost pl = self.policy;
            proof {
                lemma_pairs_bag_contains(s0, 0);
                assert forall|p: (int, V)| pairs_bag(s0).contains(p) implies !pl.better_spec(
                    p.0,
                    key_of(s0[0]),
                ) by {
                    lemma_pairs_bag_exists(s0, p);
                    let i = choose|i: int| 0 <= i < s0.len() && pair_of(s0[i]) == p;
                    lemma_heap_root_extremal(s0, pl, i);
                }
            }
            if n == 1 {
                proof {
                    lemma_pairs_bag_drop_last(s0);
                }
                let kv = self.heap.pop().unwrap();
                Some(kv)
            } else {
                swap_slots(&mut self.heap, 0, n - 1);
                proof {
                    lemma_pairs_bag_swap(s0, 0, (n - 1) as int);
                    lemma_pairs_bag_drop_last(self.heap@);
                }
                let kv = self.heap.pop().unwrap();
                proof {
                    let s = self.heap@;
                    assert forall|i: int|
                        #![trigger s[i]]
                        1 <= i < s.len() && (i - 1) / 2 != 0 implies !pl.better_spec(
                        key_of(s[i]),
                        key_of(s[(i - 1) / 2]),
                    ) by {
                        let f = (i - 1) / 2;
                        assert(s[i] == s0[i] && s[f] == s0[f]);
                    }
                }
                self.heapify_top_button();
                Some(kv)
            }
        }
    }

    /// Restore heap order after the root slot was replaced, by swapping
    /// it downward with its best child until both children are worse.
    #[verifier::rlimit(60)]
    fn heapify_top_button(&mut self)
        requires
            old(self).heap@.len() >= 1,
            heap_ordered_except_below(old(self).heap@, old(self).policy, 0),
        ensures
            final(self).policy == old(self).policy,
            final(self).heap@.len() == old(self).heap@.len(),
            pairs_bag(final(self).heap@) == pairs_bag(old(self).heap@),
            heap_ordered(final(self).heap@, final(self).policy),
    {
        let mut curr: usize = 0;
        let last = self.heap.len() - 1;
        if last == 0 {
            return ;
        }
        let last_parent = parent_of(last);
        let mut go: bool = true;
        while go && curr <= last_parent
            invariant
                self.heap@.len() == old(self).heap@.len(),
                self.heap@.len() >= 2,
                self.heap@.len() <= usize::MAX,
                last == self.heap@.len() - 1,
                last_parent == (last - 1) as int / 2,
                self.policy == old(self).policy,
                curr <= last,
                pairs_bag(self.heap@) == pairs_bag(old(self).heap@),
                heap_ordered_except_below(self.heap@, self.policy, curr as int),
                go && curr > 0 ==> children_dominated_by(
                    self.heap@,
                    self.policy,
                    (curr as int - 1) / 2,
                    curr as int,
                ),
                !go ==> heap_ordered(self.heap@, self.policy),
            decreases (last - curr) * 2 + (if go {
                1int
            } else {
                0int
            }),
        {
            let lchild = lchild_of(curr);
            let rchild = rchild_of(curr);
            let to_check = if rchild > last {
                lchild
            } else {
                if self.should_heigher(lchild, rchild) {
                    lchild
                } else {
                    rchild
                }
            };
            if !self.should_heigher(curr, to_check) {
                let ghost s = self.heap@;
                let ghost pl = self.policy;
                let ghost ci = curr as int;
                let ghost ti = to_check as int;
                swap_slots(&mut self.heap, curr, to_check);
                proof {
                    lemma_pairs_bag_swap(s, ci, ti);
                    let s2 = self.heap@;
                    assert(s2 =~= s.update(ci, s[ti]).update(ti, s[ci]));
                    assert forall|i: int|
                        #![trigger s2[i]]
                        1 <= i < s2.len() && (i - 1) / 2 != ti implies !pl.better_spec(
                        key_of(s2[i]),
                        key_of(s2[(i - 1) / 2]),
                    ) by {
                        let f = (i - 1) / 2;
                        assert(0 <= f < i);
                        if i == ti {
                            assert(f == ci);
                        } else if f == ci {
                            assert(!pl.better_spec(key_of(s[i]), key_of(s[ti])));
                        } else if i == ci {
                            assert(!pl.better_spec(key_of(s[ti]), key_of(s[f])));
                        } else {
                            assert(!pl.better_spec(key_of(s[i]), key_of(s[f])));
                        }
                    }
                    assert forall|c: int|
                        #![trigger s2[c]]
                        1 <= c < s2.len() && (c - 1) / 2 == ti implies !pl.better_spec(
                        key_of(s2[c]),
                        key_of(s2[ci]),
                    ) by {
                        assert(!pl.better_spec(key_of(s[c]), key_of(s[ti])));
                    }
                }
                curr = to_check;
            } else {
                proof {
                    let s = self.heap@;
                    let pl = self.policy;
                    assert forall|i: int| #![trigger s[i]] 1 <= i < s.len() implies !pl.better_spec(
                        key_of(s[i]),
                        key_of(s[(i - 1) / 2]),
                    ) by {
                        if (i - 1) / 2 == curr as int {
                            assert(i == 2 * curr + 1 || i == 2 * curr + 2);
                        }
                    }
                }
                go = false;
            }
        }
        proof {
            if go {
                let s = self.heap@;
                let pl = self.policy;
                assert forall|i: int| #![trigger s[i]] 1 <= i < s.len() implies !pl.better_spec(
                    key_of(s[i]),
                    key_of(s[(i - 1) / 2]),
                ) by {
                    assert((i - 1) / 2 <= last_parent as int);
                    assert((i - 1) / 2 != curr as int);
                }
            }
        }
    }

    /// Read the best entry without mutating; `None` exactly when empty.
    pub fn peek(&self) -> (r: Option<(&i64, &V)>)
        requires
            self.well_formed(),
        ensures
            (r is Some) <==> self@.len() > 0,
            r matches Some(kv) ==> {
                &&& self@.contains((*kv.0 as int, *kv.1))
                &&& forall|p: (int, V)|
                    self@.contains(p) ==> !self.policy_spec().better_spec(p.0, *kv.0 as int)
            },
    {
        proof {
            lemma_pairs_bag_len(self.heap@);
        }
        if self.heap.len() == 0 {
            None
        } else {
            proof {
                let s0 = self.heap@;
                let pl = self.policy;
                lemma_pairs_bag_contains(s0, 0);
                assert forall|p: (int, V)| pairs_bag(s0).contains(p) implies !pl.better_spec(
                    p.0,
                    key_of(s0[0]),
                ) by {
                    lemma_pairs_bag_exists(s0, p);
                    let i = choose|i: int| 0 <= i < s0.len() && pair_of(s0[i]) == p;
                    lemma_heap_root_extremal(s0, pl, i);
                }
            }
            let p = &self.heap[0];
            Some((&p.0, &p.1))
        }
    }
}

} // verus!
