pub mod binary;
pub mod binomial;

use vstd::multiset::Multiset;
use vstd::prelude::*;

verus! {

/// Result type of the heap operations: `Err(())` signals a failed lookup.
pub type HeapResult = Result<(), ()>;

/// Ordering policy of a heap: minimum-first or maximum-first.
///
/// Every comparison in both heap implementations routes through this
/// single predicate, so one algorithm serves both orderings.
#[derive(Clone, Copy, PartialEq, Eq, Structural, Debug)]
pub enum Policy {
    Min,
    Max,
}

impl Policy {
    /// `better_spec(a, b)` holds when a key `a` has strictly higher
    /// priority than a key `b` under this policy.
    pub open spec fn better_spec(self, a: int, b: int) -> bool {
        match self {
            Policy::Min => a < b,
            Policy::Max => a > b,
        }
    }

    /// Executable form of the priority predicate.
    pub fn better(self, a: i64, b: i64) -> (r: bool)
        ensures
            r == self.better_spec(a as int, b as int),
    {
        match self {
            Policy::Min => a < b,
            Policy::Max => a > b,
        }
    }
}

/// The common interface of both heap implementations.
///
/// Each implementation exposes its abstract state through three spec
/// methods: its structural invariant (`well_formed`), the multiset of
/// entries it holds (`contents`), and its ordering policy (`prefers`).
/// The method contracts below pin every operation's effect on that
/// state, so code generic over `Heap` proves the same facts as code
/// using an implementation directly.
pub trait Heap<K, V>: Sized {
    /// The structural invariant of the implementing heap.
    spec fn well_formed(&self) -> bool;

    /// The multiset of `(key, value)` entries currently held.
    spec fn contents(&self) -> Multiset<(K, V)>;

    /// True when key `a` has strictly higher priority than key `b`
    /// under this heap's configured ordering.
    spec fn prefers(&self, a: K, b: K) -> bool;

    fn push(&mut self, key: K, val: V) -> (r: HeapResult)
        requires
            old(self).well_formed(),
        ensures
            final(self).well_formed(),
            r is Ok,
            final(self).contents() == old(self).contents().insert((key, val)),
    ;

    fn pop(&mut self) -> (r: Option<(K, V)>)
        requires
            old(self).well_formed(),
        ensures
            final(self).well_formed(),
            (r is Some) <==> old(self).contents().len() > 0,
            r is None ==> *final(self) == *old(self),
            r matches Some(kv) ==> {
                &&& old(self).contents().contains(kv)
                &&& final(self).contents() == old(self).contents().remove(kv)
                &&& forall|p: (K, V)|
                    old(self).contents().contains(p) ==> !old(self).prefers(p.0, kv.0)
            },
    ;

    fn len(&self) -> (n: usize)
        requires
            self.well_formed(),
        ensures
            n == self.contents().len(),
    ;

    fn is_empty(&self) -> (r: bool)
        requires
            self.well_formed(),
        ensures
            r == (self.contents().len() == 0),
    ;

    fn peek(&self) -> (r: Option<(&K, &V)>)
        requires
            self.well_formed(),
        ensures
            (r is Some) <==> self.contents().len() > 0,
            r matches Some(kv) ==> {
                &&& self.contents().contains((*kv.0, *kv.1))
                &&& forall|p: (K, V)| self.contents().contains(p) ==> !self.prefers(p.0, *kv.0)
            },
    ;
}

/// A heap that additionally supports re-keying an entry located by its
/// current key and value.
pub trait ModifiableHeap<K, V>: Heap<K, V> {
    /// When a re-keying request is admissible for this implementation
    /// (for the binomial heap: the new key is at least as good, and
    /// equality on `V` agrees with mathematical equality).
    spec fn may_modify(&self, old_key: &K, val: &V, new_key: K) -> bool;

    fn modify_key(&mut self, old_key: &K, val: &V, new_key: K) -> (r: HeapResult)
        requires
            old(self).well_formed(),
            old(self).may_modify(old_key, val, new_key),
        ensures
            final(self).well_formed(),
            (r is Err) <==> !old(self).contents().contains((*old_key, *val)),
            r is Err ==> *final(self) == *old(self),
            r is Ok ==> final(self).contents() == old(self).contents().remove(
                (*old_key, *val),
            ).insert((new_key, *val)),
    ;
}

/// Law: keys leave a heap in priority order.
///
/// If a pop returns `(k1, v1)` out of contents `m` — so `k1` is extremal
/// in `m` — and a second pop returns `(k2, v2)` out of the remainder,
/// then `k2` is never strictly better than `k1`.  Repeated pops therefore
/// drain a heap in non-decreasing order for `Min` and non-increasing
/// order for `Max`, matching a full sort of the pushed keys.
pub proof fn lemma_successive_pops_ordered<V>(
    policy: Policy,
    m: Multiset<(int, V)>,
    k1: int,
    v1: V,
    k2: int,
    v2: V,
)
    requires
        m.contains((k1, v1)),
        forall|p: (int, V)| m.contains(p) ==> !policy.better_spec(p.0, k1),
        m.remove((k1, v1)).contains((k2, v2)),
    ensures
        !policy.better_spec(k2, k1),
{
    assert(m.count((k2, v2)) >= m.remove((k1, v1)).count((k2, v2)));
    assert(m.contains((k2, v2)));
}

/// Law: the heap's length tracks the operations on it.
///
/// A push inserts one pair into the contents and a successful pop
/// removes one contained pair, so after any sequence of operations the
/// length equals the number of pushes minus the successful pops.
pub proof fn lemma_len_tracks_operations<V>(m: Multiset<(int, V)>, p: (int, V))
    requires
        m.contains(p),
    ensures
        m.insert(p).len() == m.len() + 1,
        m.remove(p).len() == m.len() - 1,
{
}

/// Law: a heap is empty exactly when its length is zero.
///
/// `len` returns the size of the heap's contents and `is_empty` reports
/// whether that size is zero, so the two observations always agree.
pub proof fn lemma_is_empty_iff_len_zero<V>(m: Multiset<(int, V)>, empty: bool, n: usize)
    requires
        empty == (m.len() == 0),
        n == m.len(),
    ensures
        empty <==> n == 0,
{
}

} // verus!
