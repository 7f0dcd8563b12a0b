use std::collections::HashMap;

use vstd::arithmetic::div_mod::{
    lemma_basic_div, lemma_div_by_self, lemma_div_denominator, lemma_div_is_ordered,
};
use vstd::arithmetic::power2::{lemma_pow2_pos, lemma_pow2_unfold, pow2};
use vstd::multiset::Multiset;
use vstd::prelude::*;

use crate::{Heap, HeapResult, ModifiableHeap, Policy};

verus! {

broadcast use {vstd::multiset::group_multiset_axioms, vstd::std_specs::hash::group_hash_axioms};

/// Every exponent is strictly below its power of two.
proof fn lemma_exp_lt_pow2(e: nat)
    ensures
        e < pow2(e),
    decreases e,
{
    if e == 0 {
        lemma_pow2_pos(0);
    } else {
        lemma_exp_lt_pow2((e - 1) as nat);
        lemma_pow2_unfold(e);
    }
}

/// A non-negative integer divided by a positive one gives a positive
/// quotient exactly when the dividend reaches the divisor.
proof fn lemma_div_pos_iff(x: int, d: int)
    requires
        x >= 0,
        d > 0,
    ensures
        (x / d > 0) <==> x >= d,
{
    if x < d {
        lemma_basic_div(x, d);
    } else {
        lemma_div_is_ordered(d, x, d);
        lemma_div_by_self(d);
    }
}

/// Position of the highest set bit of `n`; 0 for `n == 0` or `n == 1`.
///
/// For a binomial forest holding `n` nodes this is the usual bound on
/// the degree a tree can reach, so `log2(n) + 1` buckets are enough to
/// start consolidation with.
pub fn log2(n: usize) -> (r: usize)
    ensures
        n == 0 ==> r == 0,
        n >= 1 ==> pow2(r as nat) <= n as nat,
        n >= 1 ==> (n as nat) < pow2((r + 1) as nat),
        n >= 1 ==> r < n,
{
    let mut m: usize = n / 2;
    let mut cnt: usize = 0;
    proof {
        lemma_pow2_pos(0);
        vstd::arithmetic::power2::lemma_pow2(0);
        vstd::arithmetic::power::lemma_pow0(2);
        lemma_pow2_unfold(1);
    }
    while m > 0
        invariant
            m == n as nat / pow2((cnt + 1) as nat),
            n >= 1 ==> pow2(cnt as nat) <= n as nat,
            n == 0 ==> cnt == 0,
            cnt + 1 <= n || cnt == 0,
        decreases m,
    {
        proof {
            let p = pow2((cnt + 1) as nat);
            lemma_pow2_pos((cnt + 1) as nat);
            lemma_div_pos_iff(n as int, p as int);
            lemma_exp_lt_pow2((cnt + 2) as nat);
            lemma_pow2_unfold((cnt + 2) as nat);
            lemma_div_denominator(n as int, p as int, 2);
            lemma_exp_lt_pow2((cnt + 1) as nat);
        }
        cnt = cnt + 1;
        m = m / 2;
    }
    proof {
        let p = pow2((cnt + 1) as nat);
        lemma_pow2_pos((cnt + 1) as nat);
        lemma_div_pos_iff(n as int, p as int);
        if n >= 1 {
            lemma_exp_lt_pow2(cnt as nat);
        }
    }
    cnt
}

/// One node of a binomial tree, stored in the heap's arena and addressed
/// by its arena slot.  `children` and `parent` hold arena slots; the
/// parent link is the non-owning back-reference used for upward walks.
struct Node<V> {
    key: i64,
    val: V,
    children: Vec<usize>,
    parent: Option<usize>,
}

/// A binomial heap over `i64` keys with arbitrary associated values,
/// ordered min-first or max-first by its `Policy`.
///
/// Nodes live in an arena (`nodes`); popping a node turns its slot into
/// `None` and slots are never reused, so a slot number identifies a node
/// for its whole life.  `trees` lists the slots of the forest's roots,
/// `top` tracks the root holding the extremal key, `hash` maps each key
/// to the slots whose nodes currently hold that key, and `total` counts
/// the live nodes.  `chains` records, for every live node, its chain of
/// ancestor slots up to the root of its tree; it is ghost state that
/// only the proofs consume.
pub struct BinomialHeap<V> {
    total: usize,
    top: Option<usize>,
    hash: HashMap<i64, Vec<usize>>,
    nodes: Vec<Option<Node<V>>>,
    trees: Vec<usize>,
    policy: Policy,
    chains: Ghost<Map<int, Seq<int>>>,
}

/// Slot `i` of the arena holds a live node.
spec fn live<V>(ns: Seq<Option<Node<V>>>, i: int) -> bool {
    0 <= i < ns.len() && ns[i] is Some
}

/// The live node in slot `i`.
spec fn node_of<V>(ns: Seq<Option<Node<V>>>, i: int) -> Node<V> {
    ns[i]->Some_0
}

/// The key held in slot `i`, as a mathematical integer.
spec fn nkey<V>(ns: Seq<Option<Node<V>>>, i: int) -> int {
    node_of(ns, i).key as int
}

/// The `(key, value)` pair held in slot `i`.
spec fn npair<V>(ns: Seq<Option<Node<V>>>, i: int) -> (int, V) {
    (node_of(ns, i).key as int, node_of(ns, i).val)
}

/// The multiset of `(key, value)` pairs of all live nodes in the arena.
spec fn bag<V>(ns: Seq<Option<Node<V>>>) -> Multiset<(int, V)>
    decreases ns.len(),
{
    if ns.len() == 0 {
        Multiset::empty()
    } else {
        match ns.last() {
            Some(n) => bag(ns.drop_last()).insert((n.key as int, n.val)),
            None => bag(ns.drop_last()),
        }
    }
}

/// Slot `j` is listed as a root of the forest.
spec fn in_roots(rts: Seq<usize>, j: int) -> bool {
    j >= 0 && rts.contains(j as usize)
}

/// Slot `j` sits in one of the consolidation buckets.
spec fn in_buckets(bs: Seq<Vec<usize>>, j: int) -> bool {
    j >= 0 && exists|bi: int| 0 <= bi < bs.len() && (#[trigger] bs[bi])@.contains(j as usize)
}

/// Slot `j` is a root of the forest, held either in the root list or in
/// a consolidation bucket (the bucket sequence is empty outside of
/// consolidation).
spec fn in_forest(rts: Seq<usize>, bs: Seq<Vec<usize>>, j: int) -> bool {
    in_roots(rts, j) || in_buckets(bs, j)
}

/// The per-node structural invariant of the arena:
///  - a node with a parent is listed among that parent's children, is no
///    better than it, and a node without a parent stands in the forest;
///  - the children of a node of degree `d` are the roots of binomial
///    trees of degrees `0 .. d-1`, in that order, and point back to it.
spec fn forest_ok<V>(
    ns: Seq<Option<Node<V>>>,
    policy: Policy,
    rts: Seq<usize>,
    bs: Seq<Vec<usize>>,
) -> bool {
    forall|j: int| #[trigger] live(ns, j) ==> node_ok(ns, policy, rts, bs, j)
}

/// The conditions of `forest_ok` for a single live slot `j`.
spec fn node_ok<V>(
    ns: Seq<Option<Node<V>>>,
    policy: Policy,
    rts: Seq<usize>,
    bs: Seq<Vec<usize>>,
    j: int,
) -> bool {
    let n = node_of(ns, j);
    &&& match n.parent {
        Some(p) => {
            &&& live(ns, p as int)
            &&& node_of(ns, p as int).children@.contains(j as usize)
            &&& !policy.better_spec(nkey(ns, j), nkey(ns, p as int))
        },
        None => in_forest(rts, bs, j),
    }
    &&& forall|ci: int|
        0 <= ci < n.children@.len() ==> {
            let c = (#[trigger] n.children@[ci]) as int;
            &&& live(ns, c)
            &&& c != j
            &&& node_of(ns, c).parent == Some(j as usize)
            &&& node_of(ns, c).children@.len() == ci
        }
}

/// The root list holds distinct slots of live, parentless nodes.
spec fn roots_list_ok<V>(ns: Seq<Option<Node<V>>>, rts: Seq<usize>) -> bool {
    &&& forall|k: int|
        0 <= k < rts.len() ==> live(ns, (#[trigger] rts[k]) as int) && node_of(
            ns,
            rts[k] as int,
        ).parent is None
    &&& forall|k1: int, k2: int| 0 <= k1 < k2 < rts.len() ==> rts[k1] != rts[k2]
}

/// The ghost ancestor chains: each live node's chain starts at the node
/// itself, extends its parent's chain, ends at a parentless node, stays
/// within the live arena, and every entry is at least as good as the
/// node.  The chain of a root is just the root itself.
spec fn chains_ok<V>(ns: Seq<Option<Node<V>>>, ch: Map<int, Seq<int>>, policy: Policy) -> bool {
    forall|j: int| #[trigger] live(ns, j) ==> chain_ok(ns, ch, policy, j)
}

/// The conditions of `chains_ok` for a single live slot `j`.
spec fn chain_ok<V>(ns: Seq<Option<Node<V>>>, ch: Map<int, Seq<int>>, policy: Policy, j: int) -> bool {
    let cj = ch[j];
    &&& ch.dom().contains(j)
    &&& cj.len() >= 1
    &&& cj[0] == j
    &&& forall|t: int|
        0 <= t < cj.len() ==> live(ns, #[trigger] cj[t]) && !policy.better_spec(
            nkey(ns, j),
            nkey(ns, cj[t]),
        )
    &&& forall|t: int|
        0 <= t < cj.len() - 1 ==> node_of(ns, #[trigger] cj[t]).parent == Some(cj[t + 1] as usize)
    &&& (node_of(ns, j).parent is None ==> cj == seq![j])
    &&& (node_of(ns, j).parent matches Some(p) ==> cj == seq![j] + ch[p as int])
    &&& node_of(ns, cj.last()).parent is None
}

/// The tracked top: absent exactly when the forest is empty, otherwise a
/// listed root whose key is at least as good as every live node's key.
spec fn top_ok<V>(
    ns: Seq<Option<Node<V>>>,
    policy: Policy,
    top: Option<usize>,
    rts: Seq<usize>,
) -> bool {
    match top {
        None => rts.len() == 0,
        Some(t) => {
            &&& live(ns, t as int)
            &&& rts.contains(t)
            &&& forall|j: int|
                #[trigger] live(ns, j) ==> !policy.better_spec(nkey(ns, j), nkey(ns, t as int))
        },
    }
}

/// The key index: every listed slot is live and holds the listed key,
/// and every live node is listed under its current key.
spec fn hash_ok<V>(ns: Seq<Option<Node<V>>>, h: Map<i64, Vec<usize>>) -> bool {
    &&& forall|k: i64, t: int|
        h.contains_key(k) && 0 <= t < h[k]@.len() ==> {
            let j = (#[trigger] h[k]@[t]) as int;
            &&& live(ns, j)
            &&& node_of(ns, j).key == k
        }
    &&& forall|j: int|
        #[trigger] live(ns, j) ==> h.contains_key(node_of(ns, j).key) && h[node_of(
            ns,
            j,
        ).key]@.contains(j as usize)
}

/// The bag of an arena has at most one element per slot.
proof fn lemma_bag_le_len<V>(ns: Seq<Option<Node<V>>>)
    ensures
        bag(ns).len() <= ns.len(),
    decreases ns.len(),
{
    if ns.len() > 0 {
        lemma_bag_le_len(ns.drop_last());
    }
}

/// Appending a live slot inserts its pair into the bag.
proof fn lemma_bag_push_some<V>(ns: Seq<Option<Node<V>>>, n: Node<V>)
    ensures
        bag(ns.push(Some(n))) == bag(ns).insert((n.key as int, n.val)),
{
    assert(ns.push(Some(n)).drop_last() =~= ns);
}

/// The pair of any live slot is counted by the bag.
proof fn lemma_bag_contains<V>(ns: Seq<Option<Node<V>>>, i: int)
    requires
        live(ns, i),
    ensures
        bag(ns).count(npair(ns, i)) >= 1,
    decreases ns.len(),
{
    if i == ns.len() - 1 {
    } else {
        lemma_bag_contains(ns.drop_last(), i);
        assert(ns.drop_last()[i] == ns[i]);
    }
}

/// Freeing a live slot removes its pair from the bag.
proof fn lemma_bag_update_to_none<V>(ns: Seq<Option<Node<V>>>, i: int)
    requires
        live(ns, i),
    ensures
        bag(ns.update(i, None)) == bag(ns).remove(npair(ns, i)),
    decreases ns.len(),
{
    lemma_bag_contains(ns, i);
    if i == ns.len() - 1 {
        assert(ns.update(i, None).drop_last() =~= ns.drop_last());
        assert(bag(ns.update(i, None)) =~= bag(ns).remove(npair(ns, i)));
    } else {
        assert(ns.update(i, None).drop_last() =~= ns.drop_last().update(i, None));
        lemma_bag_update_to_none(ns.drop_last(), i);
        assert(ns.drop_last()[i] == ns[i]);
        lemma_bag_contains(ns.drop_last(), i);
        assert(bag(ns.update(i, None)) =~= bag(ns).remove(npair(ns, i)));
    }
}

/// Overwriting a live slot removes its old pair and inserts the new one.
proof fn lemma_bag_update_to_some<V>(ns: Seq<Option<Node<V>>>, i: int, n: Node<V>)
    requires
        live(ns, i),
    ensures
        bag(ns.update(i, Some(n))) == bag(ns).remove(npair(ns, i)).insert((n.key as int, n.val)),
    decreases ns.len(),
{
    lemma_bag_contains(ns, i);
    if i == ns.len() - 1 {
        assert(ns.update(i, Some(n)).drop_last() =~= ns.drop_last());
        assert(bag(ns.update(i, Some(n))) =~= bag(ns).remove(npair(ns, i)).insert(
            (n.key as int, n.val),
        ));
    } else {
        assert(ns.update(i, Some(n)).drop_last() =~= ns.drop_last().update(i, Some(n)));
        lemma_bag_update_to_some(ns.drop_last(), i, n);
        assert(ns.drop_last()[i] == ns[i]);
        lemma_bag_contains(ns.drop_last(), i);
        assert(bag(ns.update(i, Some(n))) =~= bag(ns).remove(npair(ns, i)).insert(
            (n.key as int, n.val),
        ));
    }
}

/// Overwriting a live slot with a node holding the same payload leaves
/// the bag unchanged.
proof fn lemma_bag_update_links<V>(ns: Seq<Option<Node<V>>>, i: int, n: Node<V>)
    requires
        live(ns, i),
        n.key == node_of(ns, i).key,
        n.val == node_of(ns, i).val,
    ensures
        bag(ns.update(i, Some(n))) == bag(ns),
{
    lemma_bag_update_to_some(ns, i, n);
    lemma_bag_contains(ns, i);
    assert(bag(ns).remove(npair(ns, i)).insert((n.key as int, n.val)) =~= bag(ns));
}

/// Any pair counted by the bag is held by some live slot.
proof fn lemma_bag_exists<V>(ns: Seq<Option<Node<V>>>, p: (int, V))
    requires
        bag(ns).count(p) >= 1,
    ensures
        exists|i: int| live(ns, i) && npair(ns, i) == p,
    decreases ns.len(),
{
    if ns.len() > 0 {
        if ns.last() is Some && npair(ns, ns.len() - 1) == p {
            assert(live(ns, ns.len() - 1));
        } else {
            lemma_bag_exists(ns.drop_last(), p);
            let i = choose|i: int| live(ns.drop_last(), i) && npair(ns.drop_last(), i) == p;
            assert(ns.drop_last()[i] == ns[i]);
            assert(live(ns, i) && npair(ns, i) == p);
        }
    }
}

/// Borrow the live node in slot `i`.
fn arena_get<V>(nodes: &Vec<Option<Node<V>>>, i: usize) -> (n: &Node<V>)
    requires
        live(nodes@, i as int),
    ensures
        *n == node_of(nodes@, i as int),
{
    nodes[i].as_ref().unwrap()
}

/// Move the live node in slot `i` out of the arena, freeing the slot.
fn arena_take<V>(nodes: &mut Vec<Option<Node<V>>>, i: usize) -> (n: Node<V>)
    requires
        live(old(nodes)@, i as int),
    ensures
        n == node_of(old(nodes)@, i as int),
        final(nodes)@ == old(nodes)@.update(i as int, None),
        bag(final(nodes)@) == bag(old(nodes)@).remove((n.key as int, n.val)),
{
    let ghost ns0 = nodes@;
    let slot = &mut nodes[i];
    let n = slot.take().unwrap();
    proof {
        lemma_bag_update_to_none(ns0, i as int);
    }
    n
}

/// Re-point the parent link of the live node in slot `c`.
fn set_parent<V>(nodes: &mut Vec<Option<Node<V>>>, c: usize, p: Option<usize>)
    requires
        live(old(nodes)@, c as int),
    ensures
        final(nodes)@ == old(nodes)@.update(
            c as int,
            Some((Node { parent: p, ..node_of(old(nodes)@, c as int) })),
        ),
        bag(final(nodes)@) == bag(old(nodes)@),
{
    let ghost ns0 = nodes@;
    let slot = &mut nodes[c];
    let mut n = slot.take().unwrap();
    n.parent = p;
    *slot = Some(n);
    proof {
        lemma_bag_update_links(ns0, c as int, node_of(nodes@, c as int));
    }
}

/// Append slot `c` to the child list of the live node in slot `p`.
fn push_child<V>(nodes: &mut Vec<Option<Node<V>>>, p: usize, c: usize)
    requires
        live(old(nodes)@, p as int),
    ensures
        final(nodes)@ == old(nodes)@.update(
            p as int,
            Some(
                (Node {
                    children: final(nodes)@[p as int]->Some_0.children,
                    ..node_of(old(nodes)@, p as int)
                }),
            ),
        ),
        node_of(final(nodes)@, p as int).children@ == node_of(old(nodes)@, p as int).children@.push(
            c,
        ),
        bag(final(nodes)@) == bag(old(nodes)@),
{
    let ghost ns0 = nodes@;
    let slot = &mut nodes[p];
    let mut n = slot.take().unwrap();
    n.children.push(c);
    *slot = Some(n);
    proof {
        lemma_bag_update_links(ns0, p as int, node_of(nodes@, p as int));
    }
}

/// Overwrite the key of the live node in slot `i`.
fn set_key<V>(nodes: &mut Vec<Option<Node<V>>>, i: usize, key: i64)
    requires
        live(old(nodes)@, i as int),
    ensures
        final(nodes)@ == old(nodes)@.update(
            i as int,
            Some((Node { key, ..node_of(old(nodes)@, i as int) })),
        ),
        bag(final(nodes)@) == bag(old(nodes)@).remove(npair(old(nodes)@, i as int)).insert(
            (key as int, node_of(old(nodes)@, i as int).val),
        ),
{
    let ghost ns0 = nodes@;
    let slot = &mut nodes[i];
    let mut n = slot.take().unwrap();
    n.key = key;
    *slot = Some(n);
    proof {
        lemma_bag_update_to_some(ns0, i as int, node_of(nodes@, i as int));
    }
}

/// Exchange the `(key, value)` payloads of two distinct live slots,
/// leaving both nodes' links in place.
fn swap_payload<V>(nodes: &mut Vec<Option<Node<V>>>, a: usize, b: usize)
    requires
        live(old(nodes)@, a as int),
        live(old(nodes)@, b as int),
        a != b,
    ensures
        final(nodes)@ == old(nodes)@.update(
            a as int,
            Some(
                (Node {
                    key: node_of(old(nodes)@, b as int).key,
                    val: final(nodes)@[a as int]->Some_0.val,
                    ..node_of(old(nodes)@, a as int)
                }),
            ),
        ).update(
            b as int,
            Some(
                (Node {
                    key: node_of(old(nodes)@, a as int).key,
                    val: final(nodes)@[b as int]->Some_0.val,
                    ..node_of(old(nodes)@, b as int)
                }),
            ),
        ),
        node_of(final(nodes)@, a as int).val == node_of(old(nodes)@, b as int).val,
        node_of(final(nodes)@, b as int).val == node_of(old(nodes)@, a as int).val,
        bag(final(nodes)@) == bag(old(nodes)@),
{
    let ghost ns0 = nodes@;
    let slot_a = &mut nodes[a];
    let na = slot_a.take().unwrap();
    let slot_b = &mut nodes[b];
    let nb = slot_b.take().unwrap();
    let Node { key: ka, val: va, children: ca, parent: pa } = na;
    let Node { key: kb, val: vb, children: cb, parent: pb } = nb;
    nodes[a] = Some(Node { key: kb, val: vb, children: ca, parent: pa });
    nodes[b] = Some(Node { key: ka, val: va, children: cb, parent: pb });
    proof {
        let ns4 = nodes@;
        let pa_pair = npair(ns0, a as int);
        let pb_pair = npair(ns0, b as int);
        assert(ns4 =~= ns0.update(a as int, ns4[a as int]).update(b as int, ns4[b as int]));
        let ns1 = ns0.update(a as int, ns4[a as int]);
        lemma_bag_update_to_some(ns0, a as int, ns4[a as int]->Some_0);
        assert(live(ns1, b as int) && npair(ns1, b as int) == pb_pair);
        lemma_bag_update_to_some(ns1, b as int, ns4[b as int]->Some_0);
        lemma_bag_contains(ns0, a as int);
        lemma_bag_contains(ns0, b as int);
        assert(bag(ns1).count(pb_pair) >= 1) by {
            if pa_pair == pb_pair {
            }
        }
        assert(bag(ns4) =~= bag(ns0));
    }
}

/// In a forest with no listed roots there are no live nodes at all.
proof fn lemma_empty_forest_empty_bag<V>(
    ns: Seq<Option<Node<V>>>,
    ch: Map<int, Seq<int>>,
    policy: Policy,
    rts: Seq<usize>,
)
    requires
        forest_ok(ns, policy, rts, Seq::empty()),
        chains_ok(ns, ch, policy),
        rts.len() == 0,
    ensures
        forall|j: int| !live(ns, j),
        bag(ns) == Multiset::<(int, V)>::empty(),
{
    assert forall|j: int| !live(ns, j) by {
        if live(ns, j) {
            let cj = ch[j];
            assert(chain_ok(ns, ch, policy, j));
            assert(live(ns, cj.last()));
            assert(node_ok(ns, policy, rts, Seq::empty(), cj.last()));
            assert(in_forest(rts, Seq::empty(), cj.last()));
        }
    }
    if bag(ns).len() > 0 {
        let p = bag(ns).choose();
        lemma_bag_exists(ns, p);
        assert(false);
    }
    assert(bag(ns) =~= Multiset::<(int, V)>::empty());
}


/// The multiset of `(key, value)` pairs of the live arena slots, with
/// the keys kept at their stored type.
spec fn bag_keyed<V>(ns: Seq<Option<Node<V>>>) -> Multiset<(i64, V)>
    decreases ns.len(),
{
    if ns.len() == 0 {
        Multiset::empty()
    } else {
        match ns.last() {
            Some(n) => bag_keyed(ns.drop_last()).insert((n.key, n.val)),
            None => bag_keyed(ns.drop_last()),
        }
    }
}

/// The keyed bag counts every pair exactly as the widened bag does.
proof fn lemma_bag_keyed_count<V>(ns: Seq<Option<Node<V>>>, p: (i64, V))
    ensures
        bag_keyed(ns).count(p) == bag(ns).count((p.0 as int, p.1)),
    decreases ns.len(),
{
    if ns.len() > 0 {
        lemma_bag_keyed_count(ns.drop_last(), p);
    }
}

/// The keyed bag and the widened bag have the same size.
proof fn lemma_bag_keyed_len<V>(ns: Seq<Option<Node<V>>>)
    ensures
        bag_keyed(ns).len() == bag(ns).len(),
    decreases ns.len(),
{
    if ns.len() > 0 {
        lemma_bag_keyed_len(ns.drop_last());
    }
}

impl<V> View for BinomialHeap<V> {
    type V = Multiset<(int, V)>;

    closed spec fn view(&self) -> Multiset<(int, V)> {
        bag(self.nodes@)
    }
}

impl<V> Heap<i64, V> for BinomialHeap<V> {
    closed spec fn well_formed(&self) -> bool {
        &&& forest_ok(self.nodes@, self.policy, self.trees@, Seq::empty())
        &&& roots_list_ok(self.nodes@, self.trees@)
        &&& chains_ok(self.nodes@, self.chains@, self.policy)
        &&& top_ok(self.nodes@, self.policy, self.top, self.trees@)
        &&& hash_ok(self.nodes@, self.hash@)
        &&& self.total == bag(self.nodes@).len()
    }

    closed spec fn contents(&self) -> Multiset<(i64, V)> {
        bag_keyed(self.nodes@)
    }

    closed spec fn prefers(&self, a: i64, b: i64) -> bool {
        self.policy.better_spec(a as int, b as int)
    }

    fn push(&mut self, key: i64, val: V) -> (r: HeapResult) {
        let r = BinomialHeap::push(self, key, val);
        proof {
            assert(self.contents() =~= old(self).contents().insert((key, val))) by {
                assert forall|p: (i64, V)|
                    self.contents().count(p) == old(self).contents().insert((key, val)).count(
                        p,
                    ) by {
                    lemma_bag_keyed_count(self.nodes@, p);
                    lemma_bag_keyed_count(old(self).nodes@, p);
                }
            }
        }
        r
    }

    fn pop(&mut self) -> (r: Option<(i64, V)>) {
        let r = BinomialHeap::pop(self);
        proof {
            lemma_bag_keyed_len(old(self).nodes@);
            if r is Some {
                let kv = r->Some_0;
                lemma_bag_keyed_count(old(self).nodes@, kv);
                assert(self.contents() =~= old(self).contents().remove(kv)) by {
                    assert forall|p: (i64, V)|
                        self.contents().count(p) == old(self).contents().remove(kv).count(p) by {
                        lemma_bag_keyed_count(self.nodes@, p);
                        lemma_bag_keyed_count(old(self).nodes@, p);
                    }
                }
                assert forall|p: (i64, V)|
                    old(self).contents().contains(p) implies !old(self).prefers(p.0, kv.0) by {
                    lemma_bag_keyed_count(old(self).nodes@, p);
                    assert(old(self)@.contains((p.0 as int, p.1)));
                }
            }
        }
        r
    }

    fn len(&self) -> (n: usize) {
        proof {
            lemma_bag_keyed_len(self.nodes@);
        }
        BinomialHeap::len(self)
    }

    fn is_empty(&self) -> (r: bool) {
        proof {
            lemma_bag_keyed_len(self.nodes@);
        }
        BinomialHeap::is_empty(self)
    }

    fn peek(&self) -> (r: Option<(&i64, &V)>) {
        let r = BinomialHeap::peek(self);
        proof {
            lemma_bag_keyed_len(self.nodes@);
            if r is Some {
                let kv = r->Some_0;
                lemma_bag_keyed_count(self.nodes@, (*kv.0, *kv.1));
                assert forall|p: (i64, V)| self.contents().contains(p) implies !self.prefers(
                    p.0,
                    *kv.0,
                ) by {
                    lemma_bag_keyed_count(self.nodes@, p);
                    assert(self@.contains((p.0 as int, p.1)));
                }
            }
        }
        r
    }
}

impl<V> BinomialHeap<V> {
    /// The ordering policy this heap was created with.
    pub closed spec fn policy_spec(self) -> Policy {
        self.policy
    }

    /// A min-first binomial heap.
    pub fn new_min() -> (r: Self)
        ensures
            r.well_formed(),
            r@ == Multiset::<(int, V)>::empty(),
            r.policy_spec() == Policy::Min,
    {
        BinomialHeap::new_with_policy(Policy::Min)
    }

    /// A max-first binomial heap.
    pub fn new_max() -> (r: Self)
        ensures
            r.well_formed(),
            r@ == Multiset::<(int, V)>::empty(),
            r.policy_spec() == Policy::Max,
    {
        BinomialHeap::new_with_policy(Policy::Max)
    }

    /// An empty heap under the given policy.
    fn new_with_policy(policy: Policy) -> (r: Self)
        ensures
            r.well_formed(),
            r@ == Multiset::<(int, V)>::empty(),
            r.policy_spec() == policy,
    {
        Self {
            total: 0,
            top: None,
            hash: HashMap::new(),
            nodes: Vec::new(),
            trees: Vec::new(),
            policy,
            chains: Ghost(Map::tracked_empty()),
        }
    }

    /// Number of entries stored.
    pub fn len(&self) -> (n: usize)
        requires
            self.well_formed(),
        ensures
            n == self@.len(),
    {
        self.total
    }

    /// True exactly when no entry is stored.
    pub fn is_empty(&self) -> (r: bool)
        requires
            self.well_formed(),
        ensures
            r == (self@.len() == 0),
    {
        proof {
            if self.trees@.len() == 0 {
                lemma_empty_forest_empty_bag(self.nodes@, self.chains@, self.policy, self.trees@);
            } else {
                assert(live(self.nodes@, self.trees@[0] as int));
                lemma_bag_contains(self.nodes@, self.trees@[0] as int);
            }
        }
        self.trees.is_empty()
    }

    /// Read the best entry without mutating; `None` exactly when empty.
    pub fn peek(&self) -> (r: Option<(&i64, &V)>)
        requires
            self.well_formed(),
        ensures
            (r is Some) <==> self@.len() > 0,
            r matches Some(kv) ==> {
                &&& self@.contains((*kv.0 as int, *kv.1))
                &&& forall|p: (int, V)|
                    self@.contains(p) ==> !self.policy_spec().better_spec(p.0, *kv.0 as int)
            },
    {
        match self.top {
            None => {
                proof {
                    lemma_empty_forest_empty_bag(
                        self.nodes@,
                        self.chains@,
                        self.policy,
                        self.trees@,
                    );
                }
                None
            },
            Some(t) => {
                proof {
                    let ns = self.nodes@;
                    lemma_bag_contains(ns, t as int);
                    assert forall|p: (int, V)| bag(ns).contains(p) implies !self
                        .policy
                        .better_spec(p.0, nkey(ns, t as int)) by {
                        lemma_bag_exists(ns, p);
                        let j = choose|j: int| live(ns, j) && npair(ns, j) == p;
                        assert(!self.policy.better_spec(nkey(ns, j), nkey(ns, t as int)));
                    }
                }
                let n = arena_get(&self.nodes, t);
                Some((&n.key, &n.val))
            },
        }
    }

    /// True when the node in slot `a` holds a strictly better key than
    /// the node in slot `b`.
    fn is_heigher(&self, a: usize, b: usize) -> (r: bool)
        requires
            live(self.nodes@, a as int),
            live(self.nodes@, b as int),
        ensures
            r == self.policy.better_spec(nkey(self.nodes@, a as int), nkey(self.nodes@, b as int)),
    {
        let ka = arena_get(&self.nodes, a).key;
        let kb = arena_get(&self.nodes, b).key;
        self.policy.better(ka, kb)
    }

    /// Order two slots: the better one first (ties keep the first
    /// argument second, as the comparison is strict).
    fn compare(&self, a: usize, b: usize) -> (r: (usize, usize))
        requires
            live(self.nodes@, a as int),
            live(self.nodes@, b as int),
        ensures
            r == if self.policy.better_spec(
                nkey(self.nodes@, a as int),
                nkey(self.nodes@, b as int),
            ) {
                (a, b)
            } else {
                (b, a)
            },
    {
        if self.is_heigher(a, b) {
            (a, b)
        } else {
            (b, a)
        }
    }

    /// The better of two slots.
    fn heigher(&self, a: usize, b: usize) -> (r: usize)
        requires
            live(self.nodes@, a as int),
            live(self.nodes@, b as int),
        ensures
            r == if self.policy.better_spec(
                nkey(self.nodes@, a as int),
                nkey(self.nodes@, b as int),
            ) {
                a
            } else {
                b
            },
    {
        self.compare(a, b).0
    }

    /// Challenge the tracked top with slot `c`, keeping the better of
    /// the two (or installing `c` when no top is tracked).
    fn update_top(&mut self, c: usize)
        requires
            live(old(self).nodes@, c as int),
            old(self).top matches Some(t) ==> live(old(self).nodes@, t as int),
        ensures
            *final(self) == (BinomialHeap { top: final(self).top, ..*old(self) }),
            final(self).top matches Some(t2) ==> match old(self).top {
                None => t2 == c,
                Some(t) => t2 == if old(self).policy.better_spec(
                    nkey(old(self).nodes@, c as int),
                    nkey(old(self).nodes@, t as int),
                ) {
                    c
                } else {
                    t
                },
            },
            final(self).top is Some,
    {
        match self.top {
            None => {
                self.top = Some(c);
            },
            Some(t) => {
                let w = self.heigher(c, t);
                self.top = Some(w);
            },
        }
    }

    /// Record slot `id` in the index under `key`, creating the bucket if
    /// the key is new.
    fn hash_insert(&mut self, key: i64, id: usize)
        ensures
            *final(self) == (BinomialHeap { hash: final(self).hash, ..*old(self) }),
            final(self).hash@.dom() == old(self).hash@.dom().insert(key),
            final(self).hash@[key]@ == if old(self).hash@.contains_key(key) {
                old(self).hash@[key]@.push(id)
            } else {
                seq![id]
            },
            forall|k: i64|
                k != key && old(self).hash@.contains_key(k) ==> final(self).hash@[k] == old(
                    self,
                ).hash@[k],
    {
        let bucket_opt = self.hash.remove(&key);
        let mut bucket = match bucket_opt {
            Some(b) => b,
            None => Vec::new(),
        };
        bucket.push(id);
        self.hash.insert(key, bucket);
        proof {
            assert(final(self).hash@.dom() =~= old(self).hash@.dom().insert(key));
        }
    }

    /// Insert a new entry as a fresh singleton tree.  Always succeeds;
    /// no consolidation happens here (it is deferred to `pop`).
    pub fn push(&mut self, key: i64, val: V) -> (r: HeapResult)
        requires
            old(self).well_formed(),
        ensures
            r is Ok,
            final(self).well_formed(),
            final(self).policy_spec() == old(self).policy_spec(),
            final(self)@ == old(self)@.insert((key as int, val)),
    {
        let ghost ns0 = self.nodes@;
        let ghost trees0 = self.trees@;
        let ghost ch0 = self.chains@;
        let ghost h0 = self.hash@;
        let ghost pl = self.policy;
        let ghost top0 = self.top;
        proof {
            lemma_bag_le_len(ns0);
        }
        let id = self.nodes.len();
        self.nodes.push(Some(Node { key, val, children: Vec::new(), parent: None }));
        let n2 = self.nodes.len();
        let ghost ns1 = self.nodes@;
        proof {
            lemma_bag_push_some(ns0, node_of(ns1, id as int));
            assert(ns1 == ns0.push(Some(node_of(ns1, id as int))));
            assert forall|j: int| live(ns1, j) && j != id as int implies live(ns0, j)
                && ns1[j] == ns0[j] by {}
            assert(live(ns1, id as int));
        }
        self.hash_insert(key, id);
        self.update_top(id);
        self.trees.push(id);
        self.total = self.total + 1;
        proof {
            self.chains@ = ch0.insert(id as int, seq![id as int]);
        }
        proof {
            let ns = self.nodes@;
            let trees1 = self.trees@;
            let ch1 = self.chains@;
            let h1 = self.hash@;
            assert(ns == ns1);
            assert(trees1 == trees0.push(id));
            assert(trees1[trees0.len() as int] == id);
            assert forall|x: usize| trees0.contains(x) implies trees1.contains(x) by {
                let k = choose|k: int| 0 <= k < trees0.len() && trees0[k] == x;
                assert(trees1[k] == x);
            }
            // the root list
            assert forall|k: int| 0 <= k < trees1.len() implies live(ns, (#[trigger] trees1[k]) as int)
                && node_of(ns, trees1[k] as int).parent is None by {
                if k < trees0.len() {
                    assert(trees1[k] == trees0[k]);
                    assert(live(ns0, trees0[k] as int));
                } else {
                    assert(trees1[k] == id);
                }
            }
            assert forall|k1: int, k2: int| 0 <= k1 < k2 < trees1.len() implies trees1[k1]
                != trees1[k2] by {
                if k2 < trees0.len() {
                } else {
                    assert(trees1[k2] == id);
                    assert(live(ns0, trees1[k1] as int));
                }
            }
            // the forest
            assert forall|j: int| live(ns, j) implies node_ok(ns, pl, trees1, Seq::empty(), j) by {
                if j == id as int {
                    assert(in_roots(trees1, j));
                } else {
                    assert(node_ok(ns0, pl, trees0, Seq::empty(), j));
                    let n = node_of(ns, j);
                    assert(n == node_of(ns0, j));
                    if n.parent is None {
                        assert(in_roots(trees0, j));
                        assert(trees1.contains(j as usize));
                    }
                    assert forall|ci: int| 0 <= ci < n.children@.len() implies {
                        let c = (#[trigger] n.children@[ci]) as int;
                        &&& live(ns, c)
                        &&& c != j
                        &&& node_of(ns, c).parent == Some(j as usize)
                        &&& node_of(ns, c).children@.len() == ci
                    } by {
                        assert(live(ns0, n.children@[ci] as int));
                    }
                }
            }
            // the chains
            assert forall|j: int| live(ns, j) implies chain_ok(ns, ch1, pl, j) by {
                if j == id as int {
                    assert(ch1[j] == seq![j]);
                    assert(ch1[j][0] == j);
                    assert(ch1[j].last() == j);
                    assert forall|t: int| 0 <= t < ch1[j].len() implies live(ns, #[trigger] ch1[j][t])
                        && !pl.better_spec(nkey(ns, j), nkey(ns, ch1[j][t])) by {
                        assert(ch1[j][t] == j);
                    }
                } else {
                    assert(chain_ok(ns0, ch0, pl, j));
                    assert(ch1[j] == ch0[j]);
                    let cj = ch1[j];
                    assert forall|t: int| 0 <= t < cj.len() implies live(ns, #[trigger] cj[t])
                        && !pl.better_spec(nkey(ns, j), nkey(ns, cj[t])) by {
                        assert(live(ns0, cj[t]));
                    }
                    if let Some(p) = node_of(ns, j).parent {
                        assert(live(ns0, p as int));
                        assert(ch1[p as int] == ch0[p as int]);
                    }
                    assert(live(ns0, cj.last()));
                }
            }
            // the top
            assert(final(self).top is Some);
            let t2 = self.top->Some_0;
            assert forall|j: int| live(ns, j) implies !pl.better_spec(
                nkey(ns, j),
                nkey(ns, t2 as int),
            ) by {
                match top0 {
                    None => {
                        lemma_empty_forest_empty_bag(ns0, ch0, pl, trees0);
                        assert(t2 == id);
                        assert(j == id as int);
                    },
                    Some(t) => {
                        if j != id as int {
                            assert(!pl.better_spec(nkey(ns0, j), nkey(ns0, t as int)));
                        }
                    },
                }
            }
            assert(trees1.contains(t2)) by {
                match top0 {
                    None => {
                        assert(t2 == id);
                    },
                    Some(t) => {
                        if t2 != id {
                            assert(trees0.contains(t));
                        }
                    },
                }
            }
            // the index
            assert forall|k: i64, t: int| h1.contains_key(k) && 0 <= t < h1[k]@.len() implies {
                let j = (#[trigger] h1[k]@[t]) as int;
                &&& live(ns, j)
                &&& node_of(ns, j).key == k
            } by {
                if k == key {
                    if h0.contains_key(key) {
                        assert(h1[k]@ == h0[key]@.push(id));
                        if t < h0[key]@.len() {
                            assert(h1[k]@[t] == h0[key]@[t]);
                            assert(live(ns0, h0[key]@[t] as int));
                        } else {
                            assert(h1[k]@[t] == id);
                        }
                    } else {
                        assert(h1[k]@ == seq![id]);
                        assert(h1[k]@[t] == id);
                    }
                } else {
                    assert(h0.contains_key(k));
                    assert(h1[k] == h0[k]);
                    assert(live(ns0, h0[k]@[t] as int));
                }
            }
            assert forall|j: int| live(ns, j) implies h1.contains_key(node_of(ns, j).key)
                && h1[node_of(ns, j).key]@.contains(j as usize) by {
                if j == id as int {
                    let b1 = h1[key]@;
                    if h0.contains_key(key) {
                        assert(b1[b1.len() - 1] == id);
                    } else {
                        assert(b1[0] == id);
                    }
                } else {
                    let k = node_of(ns0, j).key;
                    assert(h0.contains_key(k) && h0[k]@.contains(j as usize));
                    let t = choose|t: int| 0 <= t < h0[k]@.len() && h0[k]@[t] == j as usize;
                    if k == key {
                        assert(h1[k]@[t] == j as usize);
                    } else {
                        assert(h1[k] == h0[k]);
                    }
                }
            }
        }
        Ok(())
    }
}

/// Degree of the live node in slot `j`: the number of its children.
spec fn ndeg<V>(ns: Seq<Option<Node<V>>>, j: int) -> int {
    node_of(ns, j).children@.len() as int
}

/// Bucket `bi` holds only live, parentless trees of degree `bi`.
spec fn buckets_ok<V>(ns: Seq<Option<Node<V>>>, bs: Seq<Vec<usize>>) -> bool {
    forall|bi: int, idx: int|
        0 <= bi < bs.len() && 0 <= idx < bs[bi]@.len() ==> {
            let j = (#[trigger] bs[bi]@[idx]) as int;
            &&& live(ns, j)
            &&& node_of(ns, j).parent is None
            &&& ndeg(ns, j) == bi
        }
}

/// No tree is listed twice across all buckets.
spec fn buckets_distinct(bs: Seq<Vec<usize>>) -> bool {
    forall|bi1: int, idx1: int, bi2: int, idx2: int|
        0 <= bi1 < bs.len() && 0 <= idx1 < bs[bi1]@.len() && 0 <= bi2 < bs.len() && 0 <= idx2
            < bs[bi2]@.len() && (bi1 != bi2 || idx1 != idx2) ==> #[trigger] bs[bi1]@[idx1]
            != #[trigger] bs[bi2]@[idx2]
}

/// No tree is listed both in the root list and in a bucket.
spec fn trees_buckets_disjoint(rts: Seq<usize>, bs: Seq<Vec<usize>>) -> bool {
    forall|m: int, bi: int, idx: int|
        0 <= m < rts.len() && 0 <= bi < bs.len() && 0 <= idx < bs[bi]@.len() ==> #[trigger] rts[m]
            != #[trigger] bs[bi]@[idx]
}

/// The degrees of the listed roots grow strictly from left to right.
spec fn trees_degrees_increasing<V>(ns: Seq<Option<Node<V>>>, rts: Seq<usize>) -> bool {
    forall|m1: int, m2: int|
        0 <= m1 < m2 < rts.len() ==> ndeg(ns, (#[trigger] rts[m1]) as int) < ndeg(
            ns,
            (#[trigger] rts[m2]) as int,
        )
}

/// Total number of trees currently held across all buckets.
spec fn bucket_trees(bs: Seq<Vec<usize>>) -> nat
    decreases bs.len(),
{
    if bs.len() == 0 {
        0
    } else {
        bucket_trees(bs.drop_last()) + bs.last()@.len()
    }
}

/// Replacing one bucket changes the tree count by the length difference.
proof fn lemma_bucket_trees_update(bs: Seq<Vec<usize>>, bi: int, v: Vec<usize>)
    requires
        0 <= bi < bs.len(),
    ensures
        bucket_trees(bs.update(bi, v)) + bs[bi]@.len() == bucket_trees(bs) + v@.len(),
    decreases bs.len(),
{
    if bi == bs.len() - 1 {
        assert(bs.update(bi, v).drop_last() =~= bs.drop_last());
    } else {
        assert(bs.update(bi, v).drop_last() =~= bs.drop_last().update(bi, v));
        lemma_bucket_trees_update(bs.drop_last(), bi, v);
        assert(bs.drop_last()[bi] == bs[bi]);
    }
}

/// Appending a bucket adds its length to the tree count.
proof fn lemma_bucket_trees_push(bs: Seq<Vec<usize>>, v: Vec<usize>)
    ensures
        bucket_trees(bs.push(v)) == bucket_trees(bs) + v@.len(),
{
    assert(bs.push(v).drop_last() =~= bs);
}

/// Two arenas with the same liveness and payloads slot-by-slot have the
/// same bag, whatever their links.
proof fn lemma_bag_congruence<V>(ns1: Seq<Option<Node<V>>>, ns2: Seq<Option<Node<V>>>)
    requires
        ns1.len() == ns2.len(),
        forall|j: int| live(ns1, j) == live(ns2, j),
        forall|j: int| live(ns1, j) ==> npair(ns1, j) == npair(ns2, j),
    ensures
        bag(ns1) == bag(ns2),
    decreases ns1.len(),
{
    if ns1.len() > 0 {
        let d1 = ns1.drop_last();
        let d2 = ns2.drop_last();
        assert(d1.len() == ns1.len() - 1 && d2.len() == ns2.len() - 1);
        assert forall|j: int| live(d1, j) == live(d2, j) by {
            assert(live(ns1, j) == live(ns2, j));
            if 0 <= j < d1.len() {
                assert(d1[j] == ns1[j] && d2[j] == ns2[j]);
            }
        }
        assert forall|j: int| live(d1, j) implies npair(d1, j) == npair(d2, j) by {
            assert(d1[j] == ns1[j] && d2[j] == ns2[j]);
            assert(live(ns1, j));
            assert(npair(ns1, j) == npair(ns2, j));
        }
        lemma_bag_congruence(d1, d2);
        assert(live(ns1, ns1.len() - 1) == live(ns2, ns2.len() - 1));
        if live(ns1, ns1.len() - 1) {
            assert(npair(ns1, ns1.len() - 1) == npair(ns2, ns2.len() - 1));
        }
    }
}

/// Grow the bucket array with empty buckets until index `d` is valid.
fn ensure_bucket(group: &mut Vec<Vec<usize>>, d: usize)
    ensures
        final(group)@.len() > d,
        final(group)@.len() >= old(group)@.len(),
        forall|bi: int| 0 <= bi < old(group)@.len() ==> final(group)@[bi] == old(group)@[bi],
        forall|bi: int|
            old(group)@.len() <= bi < final(group)@.len() ==> final(group)@[bi]@.len() == 0,
        bucket_trees(final(group)@) == bucket_trees(old(group)@),
{
    while group.len() <= d
        invariant
            group@.len() >= old(group)@.len(),
            forall|bi: int| 0 <= bi < old(group)@.len() ==> group@[bi] == old(group)@[bi],
            forall|bi: int| old(group)@.len() <= bi < group@.len() ==> group@[bi]@.len() == 0,
            bucket_trees(group@) == bucket_trees(old(group)@),
        decreases d + 1 - group@.len(),
    {
        let ghost g = group@;
        let v: Vec<usize> = Vec::new();
        proof {
            lemma_bucket_trees_push(g, v);
        }
        group.push(v);
    }
}

/// A bucket entry is in the bucket forest.
proof fn lemma_in_buckets_witness(bs: Seq<Vec<usize>>, bi: int, idx: int)
    requires
        0 <= bi < bs.len(),
        0 <= idx < bs[bi]@.len(),
    ensures
        in_buckets(bs, bs[bi]@[idx] as int),
{
    assert(bs[bi]@.contains(bs[bi]@[idx]));
}


/// The arena shape of one union: the parentless root `c` of the same
/// degree as the parentless root `p`, and no better than it, becomes
/// `p`'s new last child; nothing else in the arena changes.
spec fn union_shape<V>(
    ns0: Seq<Option<Node<V>>>,
    ns2: Seq<Option<Node<V>>>,
    pl: Policy,
    p: usize,
    c: usize,
) -> bool {
    &&& live(ns0, p as int)
    &&& live(ns0, c as int)
    &&& p != c
    &&& node_of(ns0, p as int).parent is None
    &&& node_of(ns0, c as int).parent is None
    &&& ndeg(ns0, p as int) == ndeg(ns0, c as int)
    &&& !pl.better_spec(nkey(ns0, c as int), nkey(ns0, p as int))
    &&& ns2.len() == ns0.len()
    &&& forall|j: int| 0 <= j < ns0.len() && j != p as int && j != c as int ==> ns2[j] == ns0[j]
    &&& live(ns2, p as int)
    &&& live(ns2, c as int)
    &&& node_of(ns2, c as int) == (Node { parent: Some(p), ..node_of(ns0, c as int) })
    &&& node_of(ns2, p as int).parent == node_of(ns0, p as int).parent
    &&& node_of(ns2, p as int).key == node_of(ns0, p as int).key
    &&& node_of(ns2, p as int).val == node_of(ns0, p as int).val
    &&& node_of(ns2, p as int).children@ == node_of(ns0, p as int).children@.push(c)
}

/// A union preserves the per-node forest invariant, provided the merged
/// tree is a bucket tree and the untouched roots keep their membership.
#[verifier::rlimit(100)]
proof fn lemma_union_forest<V>(
    ns0: Seq<Option<Node<V>>>,
    ns2: Seq<Option<Node<V>>>,
    pl: Policy,
    tr: Seq<usize>,
    g0: Seq<Vec<usize>>,
    g4: Seq<Vec<usize>>,
    p: usize,
    c: usize,
)
    requires
        union_shape(ns0, ns2, pl, p, c),
        forest_ok(ns0, pl, tr, g0),
        in_buckets(g4, p as int),
        forall|j: int|
            live(ns0, j) && in_forest(tr, g0, j) && j != p as int && j != c as int ==> in_forest(
                tr,
                g4,
                j,
            ),
    ensures
        forest_ok(ns2, pl, tr, g4),
{
    assert forall|j: int| live(ns2, j) implies node_ok(
        ns2,
        pl,
        tr,
        g4,
        j,
    ) by {
        assert(live(ns0, j));
        assert(node_ok(ns0, pl, tr, g0, j));
        let n2 = node_of(ns2, j);
        let n0 = node_of(ns0, j);
        if j == c as int {
            assert(node_of(ns2, p as int).children@.last() == c);
            assert(node_of(ns2, p as int).children@.contains(c));
            assert forall|ci: int| 0 <= ci < n2.children@.len() implies {
                let cc = (#[trigger] n2.children@[ci]) as int;
                &&& live(ns2, cc)
                &&& cc != j
                &&& node_of(ns2, cc).parent == Some(j as usize)
                &&& node_of(ns2, cc).children@.len() == ci
            } by {
                assert(n2.children == n0.children);
                let cc = n2.children@[ci] as int;
                assert(live(ns0, cc) && node_of(ns0, cc).parent == Some(
                    j as usize,
                ));
                assert(cc != p as int && cc != c as int);
                assert(node_of(ns2, cc) == node_of(ns0, cc));
            }
        } else if j == p as int {
            assert(in_buckets(g4, j));
            assert(in_forest(tr, g4, j));
            assert forall|ci: int| 0 <= ci < n2.children@.len() implies {
                let cc = (#[trigger] n2.children@[ci]) as int;
                &&& live(ns2, cc)
                &&& cc != j
                &&& node_of(ns2, cc).parent == Some(j as usize)
                &&& node_of(ns2, cc).children@.len() == ci
            } by {
                if ci < n0.children@.len() {
                    assert(n2.children@[ci] == n0.children@[ci]);
                    let cc = n2.children@[ci] as int;
                    assert(live(ns0, cc) && node_of(ns0, cc).parent == Some(
                        j as usize,
                    ) && node_of(ns0, cc).children@.len() == ci);
                    assert(cc != p as int);
                    assert(cc != c as int) by {
                        if cc == c as int {
                            assert(node_of(ns0, cc).parent is None);
                        }
                    }
                    assert(node_of(ns2, cc) == node_of(ns0, cc));
                } else {
                    assert(n2.children@[ci] == c);
                    assert(ndeg(ns0, c as int) == ndeg(ns0, p as int));
                    assert(n0.children@.len() == ndeg(ns0, p as int));
                }
            }
        } else {
            assert(n2 == n0);
            if n0.parent is None {
                assert(in_forest(tr, g0, j));
                assert(in_forest(tr, g4, j));
            } else {
                let q = n0.parent->Some_0;
                assert(live(ns0, q as int) && node_of(ns0, q as int).children@.contains(
                    j as usize,
                ));
                if q == p {
                    assert(node_of(ns2, q as int).children@.contains(j as usize))
                        by {
                        let ci = choose|ci: int|
                            0 <= ci < node_of(ns0, q as int).children@.len()
                                && node_of(ns0, q as int).children@[ci] == j as usize;
                        assert(node_of(ns2, q as int).children@[ci] == j as usize);
                    }
                } else if q == c {
                    assert(node_of(ns2, q as int).children == node_of(
                        ns0,
                        q as int,
                    ).children);
                }
            }
            assert forall|ci: int| 0 <= ci < n2.children@.len() implies {
                let cc = (#[trigger] n2.children@[ci]) as int;
                &&& live(ns2, cc)
                &&& cc != j
                &&& node_of(ns2, cc).parent == Some(j as usize)
                &&& node_of(ns2, cc).children@.len() == ci
            } by {
                let cc = n2.children@[ci] as int;
                assert(live(ns0, cc) && node_of(ns0, cc).parent == Some(j as usize)
                    && node_of(ns0, cc).children@.len() == ci);
                assert(cc != c as int) by {
                    if cc == c as int {
                        assert(node_of(ns0, cc).parent is None);
                    }
                }
                if cc == p as int {
                    assert(node_of(ns0, cc).parent is None);
                    assert(false);
                }
                assert(node_of(ns2, cc) == node_of(ns0, cc));
            }
        }
    }
}


/// One node's chain after a union, for the re-pointed case.
#[verifier::rlimit(100)]
proof fn lemma_union_chain_short<V>(
    ns0: Seq<Option<Node<V>>>,
    ns2: Seq<Option<Node<V>>>,
    ch0: Map<int, Seq<int>>,
    ch1: Map<int, Seq<int>>,
    pl: Policy,
    p: usize,
    c: usize,
    j: int,
)
    requires
        union_shape(ns0, ns2, pl, p, c),
        chain_ok(ns0, ch0, pl, j),
        chain_ok(ns0, ch0, pl, p as int),
        chain_ok(ns0, ch0, pl, c as int),
        node_of(ns0, j).parent matches Some(q) ==> live(ns0, q as int) && chain_ok(
            ns0,
            ch0,
            pl,
            q as int,
        ) && ch1[q as int] == (if ch0[q as int].len() >= 1 && ch0[q as int].last() == c as int {
            ch0[q as int].push(p as int)
        } else {
            ch0[q as int]
        }),
        ch1[j] == (if ch0[j].len() >= 1 && ch0[j].last() == c as int {
            ch0[j].push(p as int)
        } else {
            ch0[j]
        }),
        ch1[p as int] == (if ch0[p as int].len() >= 1 && ch0[p as int].last() == c as int {
            ch0[p as int].push(p as int)
        } else {
            ch0[p as int]
        }),
        ch1.dom().contains(j),
        live(ns2, j),
        live(ns0, j),
        ch0[j].len() >= 1 && ch0[j].last() == c as int,
    ensures
        chain_ok(ns2, ch1, pl, j),
{
    let cj0 = ch0[j];
    let cj1 = ch1[j];
    assert(cj0[0] == j);
        assert(cj1 == cj0.push(p as int));
        assert(cj1[0] == j);
        assert forall|t: int| 0 <= t < cj1.len() implies live(
            ns2,
            #[trigger] cj1[t],
        ) && !pl.better_spec(nkey(ns2, j), nkey(ns2, cj1[t])) by {
            if t < cj0.len() {
                assert(cj1[t] == cj0[t]);
                assert(live(ns0, cj0[t]));
            } else {
                assert(cj1[t] == p as int);
                assert(!pl.better_spec(nkey(ns0, j), nkey(ns0, c as int)));
                assert(!pl.better_spec(nkey(ns0, c as int), nkey(ns0, p as int)));
            }
        }
        assert forall|t: int| 0 <= t < cj1.len() - 1 implies node_of(
            ns2,
            #[trigger] cj1[t],
        ).parent == Some(cj1[t + 1] as usize) by {
            if t < cj0.len() - 1 {
                assert(cj1[t] == cj0[t] && cj1[t + 1] == cj0[t + 1]);
                assert(node_of(ns0, cj0[t]).parent == Some(
                    cj0[t + 1] as usize,
                ));
                assert(cj0[t] != c as int) by {
                    assert(node_of(ns0, cj0[t]).parent is Some);
                    assert(node_of(ns0, c as int).parent is None);
                }
            } else {
                assert(cj1[t] == c as int && cj1[t + 1] == p as int);
            }
        }
        if node_of(ns2, j).parent is None {
            assert(node_of(ns0, j).parent is None || j == c as int);
            if j == c as int {
                assert(node_of(ns2, j).parent is Some);
                assert(false);
            }
            assert(cj0 == seq![j]);
            assert(j == c as int);
            assert(false);
        }
        if j == c as int {
            assert(cj0 == seq![j]);
            assert(ch1[p as int] == ch0[p as int]) by {
                assert(ch0[p as int] == seq![p as int]);
            }
            assert(cj1 =~= seq![j] + ch1[p as int]);
        } else {
            let q = node_of(ns2, j).parent->Some_0;
            assert(node_of(ns0, j).parent == Some(q));
            assert(live(ns0, q as int));
            assert(chain_ok(ns0, ch0, pl, q as int));
            assert(cj0 == seq![j] + ch0[q as int]);
            assert(ch0[q as int].len() >= 1);
            assert(cj0.last() == ch0[q as int].last());
            assert(ch1[q as int] == ch0[q as int].push(p as int));
            assert(cj1 =~= seq![j] + ch1[q as int]);
        }
        assert(cj1.last() == p as int);
        assert(node_of(ns2, p as int).parent is None);
}

/// One node's chain after a union, for the untouched case.
#[verifier::rlimit(100)]
proof fn lemma_union_chain_same<V>(
    ns0: Seq<Option<Node<V>>>,
    ns2: Seq<Option<Node<V>>>,
    ch0: Map<int, Seq<int>>,
    ch1: Map<int, Seq<int>>,
    pl: Policy,
    p: usize,
    c: usize,
    j: int,
)
    requires
        union_shape(ns0, ns2, pl, p, c),
        chain_ok(ns0, ch0, pl, j),
        chain_ok(ns0, ch0, pl, p as int),
        chain_ok(ns0, ch0, pl, c as int),
        node_of(ns0, j).parent matches Some(q) ==> live(ns0, q as int) && chain_ok(
            ns0,
            ch0,
            pl,
            q as int,
        ) && ch1[q as int] == (if ch0[q as int].len() >= 1 && ch0[q as int].last() == c as int {
            ch0[q as int].push(p as int)
        } else {
            ch0[q as int]
        }),
        ch1[j] == (if ch0[j].len() >= 1 && ch0[j].last() == c as int {
            ch0[j].push(p as int)
        } else {
            ch0[j]
        }),
        ch1[p as int] == (if ch0[p as int].len() >= 1 && ch0[p as int].last() == c as int {
            ch0[p as int].push(p as int)
        } else {
            ch0[p as int]
        }),
        ch1.dom().contains(j),
        live(ns2, j),
        live(ns0, j),
        !(ch0[j].len() >= 1 && ch0[j].last() == c as int),
    ensures
        chain_ok(ns2, ch1, pl, j),
{
    let cj0 = ch0[j];
    let cj1 = ch1[j];
    assert(cj0[0] == j);
    assert(cj1 == cj0);
        assert(cj1 == cj0);
        assert forall|t: int| 0 <= t < cj1.len() implies live(
            ns2,
            #[trigger] cj1[t],
        ) && !pl.better_spec(nkey(ns2, j), nkey(ns2, cj1[t])) by {
            assert(live(ns0, cj0[t]));
        }
        assert(cj0.last() != c as int);
        assert forall|t: int| 0 <= t < cj1.len() - 1 implies node_of(
            ns2,
            #[trigger] cj1[t],
        ).parent == Some(cj1[t + 1] as usize) by {
            assert(node_of(ns0, cj0[t]).parent == Some(cj0[t + 1] as usize));
            assert(cj0[t] != c as int) by {
                assert(node_of(ns0, cj0[t]).parent is Some);
                assert(node_of(ns0, c as int).parent is None);
            }
        }
        if node_of(ns2, j).parent is None {
            assert(node_of(ns0, j).parent is None);
            assert(cj0 == seq![j]);
        }
        if node_of(ns2, j).parent is Some {
            let q = node_of(ns2, j).parent->Some_0;
            if j == c as int {
                assert(cj0 == seq![j]);
                assert(cj0.last() == c as int);
                assert(false);
            }
            assert(node_of(ns0, j).parent == Some(q));
            assert(live(ns0, q as int));
            assert(chain_ok(ns0, ch0, pl, q as int));
            assert(cj0 == seq![j] + ch0[q as int]);
            assert(ch0[q as int].len() >= 1);
            assert(cj0.last() == ch0[q as int].last());
            assert(ch1[q as int] == ch0[q as int]);
        }
        assert(cj1.last() != c as int);
        assert(node_of(ns0, cj0.last()).parent is None);
        assert(node_of(ns2, cj1.last()).parent is None) by {
            if cj1.last() == p as int {
            } else {
                assert(node_of(ns2, cj1.last()) == node_of(ns0, cj0.last()));
            }
        }
}
/// A union re-points exactly the chains that ended at the merged-away
/// root `c`: they gain the winning root `p` as their new last entry.
proof fn lemma_union_chains<V>(
    ns0: Seq<Option<Node<V>>>,
    ns2: Seq<Option<Node<V>>>,
    ch0: Map<int, Seq<int>>,
    ch1: Map<int, Seq<int>>,
    pl: Policy,
    p: usize,
    c: usize,
)
    requires
        union_shape(ns0, ns2, pl, p, c),
        chains_ok(ns0, ch0, pl),
        forall|j: int|
            live(ns0, j) && node_of(ns0, j).parent is Some ==> live(
                ns0,
                node_of(ns0, j).parent->Some_0 as int,
            ),
        ch1.dom() == ch0.dom(),
        forall|j: int|
            #[trigger] ch0.dom().contains(j) ==> ch1[j] == (if ch0[j].len() >= 1
                && ch0[j].last() == c as int {
                ch0[j].push(p as int)
            } else {
                ch0[j]
            }),
    ensures
        chains_ok(ns2, ch1, pl),
{
    assert forall|j: int| live(ns2, j) implies chain_ok(ns2, ch1, pl, j) by {
        assert(live(ns0, j));
        assert(chain_ok(ns0, ch0, pl, j));
        assert(chain_ok(ns0, ch0, pl, p as int));
        assert(chain_ok(ns0, ch0, pl, c as int));
        if let Some(q) = node_of(ns0, j).parent {
            assert(live(ns0, q as int));
            assert(chain_ok(ns0, ch0, pl, q as int));
            assert(ch0.dom().contains(q as int));
        }
        assert(ch0.dom().contains(j));
        assert(ch0.dom().contains(p as int));
        if ch0[j].len() >= 1 && ch0[j].last() == c as int {
            lemma_union_chain_short(ns0, ns2, ch0, ch1, pl, p, c, j);
        } else {
            lemma_union_chain_same(ns0, ns2, ch0, ch1, pl, p, c, j);
        }
    }
}


/// One node's chain after the release of `c` from under `t`.
#[verifier::rlimit(100)]
proof fn lemma_release_chain_short<V>(
    ns0: Seq<Option<Node<V>>>,
    ns1: Seq<Option<Node<V>>>,
    ch0: Map<int, Seq<int>>,
    ch1: Map<int, Seq<int>>,
    pl: Policy,
    t: usize,
    c: usize,
    j: int,
)
    requires
        live(ns0, t as int),
        live(ns0, c as int),
        t != c,
        node_of(ns0, t as int).parent is None,
        node_of(ns0, c as int).parent == Some(t),
        ns0.len() <= usize::MAX,
        ns1.len() == ns0.len(),
        forall|j2: int| 0 <= j2 < ns0.len() && j2 != c as int ==> ns1[j2] == ns0[j2],
        live(ns1, c as int),
        node_of(ns1, c as int) == (Node { parent: None, ..node_of(ns0, c as int) }),
        chain_ok(ns0, ch0, pl, j),
        chain_ok(ns0, ch0, pl, t as int),
        chain_ok(ns0, ch0, pl, c as int),
        node_of(ns0, j).parent matches Some(q) ==> live(ns0, q as int) && chain_ok(
            ns0,
            ch0,
            pl,
            q as int,
        ) && ch1[q as int] == (if ch0[q as int].len() >= 2 && ch0[q as int].last() == t as int
            && ch0[q as int][ch0[q as int].len() - 2] == c as int {
            ch0[q as int].drop_last()
        } else {
            ch0[q as int]
        }),
        ch1[j] == (if ch0[j].len() >= 2 && ch0[j].last() == t as int && ch0[j][ch0[j].len() - 2]
            == c as int {
            ch0[j].drop_last()
        } else {
            ch0[j]
        }),
        ch1.dom().contains(j),
        live(ns1, j),
        live(ns0, j),
        ch0[j].len() >= 2 && ch0[j].last() == t as int && ch0[j][ch0[j].len() - 2] == c as int,
    ensures
        chain_ok(ns1, ch1, pl, j),
{
    assert(chain_ok(ns0, ch0, pl, j));
    assert(chain_ok(ns0, ch0, pl, t as int));
    assert(chain_ok(ns0, ch0, pl, c as int));
    assert(ch0[c as int] == seq![c as int] + ch0[t as int]);
    assert(ch0[t as int] == seq![t as int]);
    assert(ch0[c as int] =~= seq![c as int, t as int]);
    let cj0 = ch0[j];
    let cj1 = ch1[j];
    assert(cj0[0] == j);
        assert(cj1 == cj0.drop_last());
        assert(cj1.len() == cj0.len() - 1);
        assert(cj1[0] == j);
        assert forall|m: int| 0 <= m < cj1.len() implies live(ns1, #[trigger] cj1[m])
            && !pl.better_spec(nkey(ns1, j), nkey(ns1, cj1[m])) by {
            assert(cj1[m] == cj0[m]);
            assert(live(ns0, cj0[m]));
        }
        assert forall|m: int| 0 <= m < cj1.len() - 1 implies node_of(
            ns1,
            #[trigger] cj1[m],
        ).parent == Some(cj1[m + 1] as usize) by {
            assert(cj1[m] == cj0[m] && cj1[m + 1] == cj0[m + 1]);
            assert(node_of(ns0, cj0[m]).parent == Some(cj0[m + 1] as usize));
            assert(cj0[m] != c as int) by {
                if cj0[m] == c as int {
                    // c sits just before the final t, not earlier
                    assert(node_of(ns0, cj0[m]).parent == Some(t));
                    assert(live(ns0, cj0[m + 1]));
                    assert(cj0[m + 1] == t as int);
                    assert(m + 1 < cj0.len() - 1);
                    assert(node_of(ns0, cj0[m + 1]).parent == Some(cj0[m + 2] as usize));
                    assert(node_of(ns0, t as int).parent is None);
                    assert(false);
                }
            }
        }
        assert(cj1.last() == cj0[cj0.len() - 2]);
        assert(cj1.last() == c as int);
        assert(node_of(ns1, c as int).parent is None);
        if node_of(ns1, j).parent is None {
            if j == c as int {
                assert(cj1 =~= seq![j]);
            } else {
                assert(node_of(ns0, j).parent is None);
                assert(cj0 == seq![j]);
                assert(false);
            }
        }
        if j != c as int && node_of(ns1, j).parent is Some {
            let q = node_of(ns1, j).parent->Some_0;
            assert(node_of(ns0, j).parent == Some(q));
            assert(live(ns0, q as int));
            assert(chain_ok(ns0, ch0, pl, q as int));
            assert(cj0 == seq![j] + ch0[q as int]);
            let cq0 = ch0[q as int];
            assert(cq0.len() >= 1);
            assert(cj0.last() == cq0.last());
            if cq0.len() >= 2 {
                assert(cq0[cq0.len() - 2] == cj0[cj0.len() - 2]);
                assert(ch1[q as int] == cq0.drop_last());
                assert(cj1 =~= seq![j] + ch1[q as int]);
            } else {
                // q is the root t itself, so j's chain was [j, t]
                assert(cq0 == seq![q as int]);
                assert(cj0.len() == 2);
                assert(cj0[cj0.len() - 2] == j);
                assert(j == c as int);
                assert(false);
            }
        }
}

/// One node's chain after the release of `c` from under `t`.
#[verifier::rlimit(100)]
proof fn lemma_release_chain_same<V>(
    ns0: Seq<Option<Node<V>>>,
    ns1: Seq<Option<Node<V>>>,
    ch0: Map<int, Seq<int>>,
    ch1: Map<int, Seq<int>>,
    pl: Policy,
    t: usize,
    c: usize,
    j: int,
)
    requires
        live(ns0, t as int),
        live(ns0, c as int),
        t != c,
        node_of(ns0, t as int).parent is None,
        node_of(ns0, c as int).parent == Some(t),
        ns0.len() <= usize::MAX,
        ns1.len() == ns0.len(),
        forall|j2: int| 0 <= j2 < ns0.len() && j2 != c as int ==> ns1[j2] == ns0[j2],
        live(ns1, c as int),
        node_of(ns1, c as int) == (Node { parent: None, ..node_of(ns0, c as int) }),
        chain_ok(ns0, ch0, pl, j),
        chain_ok(ns0, ch0, pl, t as int),
        chain_ok(ns0, ch0, pl, c as int),
        node_of(ns0, j).parent matches Some(q) ==> live(ns0, q as int) && chain_ok(
            ns0,
            ch0,
            pl,
            q as int,
        ) && ch1[q as int] == (if ch0[q as int].len() >= 2 && ch0[q as int].last() == t as int
            && ch0[q as int][ch0[q as int].len() - 2] == c as int {
            ch0[q as int].drop_last()
        } else {
            ch0[q as int]
        }),
        ch1[j] == (if ch0[j].len() >= 2 && ch0[j].last() == t as int && ch0[j][ch0[j].len() - 2]
            == c as int {
            ch0[j].drop_last()
        } else {
            ch0[j]
        }),
        ch1.dom().contains(j),
        live(ns1, j),
        live(ns0, j),
        !(ch0[j].len() >= 2 && ch0[j].last() == t as int && ch0[j][ch0[j].len() - 2] == c as int),
    ensures
        chain_ok(ns1, ch1, pl, j),
{
    assert(chain_ok(ns0, ch0, pl, j));
    assert(chain_ok(ns0, ch0, pl, t as int));
    assert(chain_ok(ns0, ch0, pl, c as int));
    assert(ch0[c as int] == seq![c as int] + ch0[t as int]);
    assert(ch0[t as int] == seq![t as int]);
    assert(ch0[c as int] =~= seq![c as int, t as int]);
    let cj0 = ch0[j];
    let cj1 = ch1[j];
    assert(cj0[0] == j);
    assert(cj1 == cj0);
        assert(cj1 == cj0);
        assert forall|m: int| 0 <= m < cj1.len() implies live(ns1, #[trigger] cj1[m])
            && !pl.better_spec(nkey(ns1, j), nkey(ns1, cj1[m])) by {
            assert(live(ns0, cj0[m]));
            assert(cj0[m] != c as int) by {
                if cj0[m] == c as int {
                    if m < cj0.len() - 1 {
                        assert(node_of(ns0, cj0[m]).parent == Some(cj0[m + 1] as usize));
                        assert(live(ns0, cj0[m + 1]));
                        assert(cj0[m + 1] == t as int);
                        if m + 1 < cj0.len() - 1 {
                            assert(node_of(ns0, cj0[m + 1]).parent == Some(
                                cj0[m + 2] as usize,
                            ));
                            assert(false);
                        }
                        assert(m + 1 == cj0.len() - 1);
                        assert(cj0.last() == t as int);
                        assert(cj0[cj0.len() - 2] == c as int);
                        assert(false);
                    } else {
                        assert(cj0.last() == c as int);
                        assert(node_of(ns0, cj0.last()).parent is None);
                        assert(node_of(ns0, c as int).parent == Some(t));
                        assert(false);
                    }
                }
            }
        }
        assert forall|m: int| 0 <= m < cj1.len() - 1 implies node_of(
            ns1,
            #[trigger] cj1[m],
        ).parent == Some(cj1[m + 1] as usize) by {
            assert(node_of(ns0, cj0[m]).parent == Some(cj0[m + 1] as usize));
            assert(cj0[m] != c as int) by {
                if cj0[m] == c as int {
                    assert(live(ns0, cj0[m + 1]));
                    assert(cj0[m + 1] == t as int);
                    if m + 1 < cj0.len() - 1 {
                        assert(node_of(ns0, cj0[m + 1]).parent == Some(cj0[m + 2] as usize));
                        assert(false);
                    }
                    assert(cj0.last() == t as int && cj0[cj0.len() - 2] == c as int);
                    assert(false);
                }
            }
        }
        if node_of(ns1, j).parent is None {
            if j == c as int {
                assert(cj0 =~= seq![c as int, t as int]);
                assert(false);
            }
            assert(node_of(ns0, j).parent is None);
            assert(cj0 == seq![j]);
        }
        if node_of(ns1, j).parent is Some {
            let q = node_of(ns1, j).parent->Some_0;
            assert(j != c as int);
            assert(node_of(ns0, j).parent == Some(q));
            assert(live(ns0, q as int));
            assert(chain_ok(ns0, ch0, pl, q as int));
            assert(cj0 == seq![j] + ch0[q as int]);
            let cq0 = ch0[q as int];
            assert(cq0.len() >= 1);
            assert(cj0.last() == cq0.last());
            assert(ch1[q as int] == cq0) by {
                if cq0.len() >= 2 && cq0.last() == t as int && cq0[cq0.len() - 2]
                    == c as int {
                    assert(cq0[cq0.len() - 2] == cj0[cj0.len() - 2]);
                    assert(cj0.last() == t as int);
                    assert(false);
                }
            }
        }
        assert(node_of(ns0, cj0.last()).parent is None);
        assert(cj0.last() != c as int) by {
            if cj0.last() == c as int {
                assert(node_of(ns0, c as int).parent == Some(t));
            }
        }
        assert(node_of(ns1, cj1.last()) == node_of(ns0, cj0.last()));
}

/// Clearing the parent link of `c` — a direct child of the parentless
/// node `t` — shortens exactly the chains that ran `.., c, t`: they
/// lose their final entry `t`, making `c` a root of its own tree.
proof fn lemma_release_chains<V>(
    ns0: Seq<Option<Node<V>>>,
    ns1: Seq<Option<Node<V>>>,
    ch0: Map<int, Seq<int>>,
    ch1: Map<int, Seq<int>>,
    pl: Policy,
    t: usize,
    c: usize,
)
    requires
        live(ns0, t as int),
        live(ns0, c as int),
        t != c,
        node_of(ns0, t as int).parent is None,
        node_of(ns0, c as int).parent == Some(t),
        ns0.len() <= usize::MAX,
        ns1.len() == ns0.len(),
        forall|j2: int| 0 <= j2 < ns0.len() && j2 != c as int ==> ns1[j2] == ns0[j2],
        live(ns1, c as int),
        node_of(ns1, c as int) == (Node { parent: None, ..node_of(ns0, c as int) }),
        chains_ok(ns0, ch0, pl),
        forall|j2: int|
            live(ns0, j2) && node_of(ns0, j2).parent is Some ==> live(
                ns0,
                node_of(ns0, j2).parent->Some_0 as int,
            ),
        ch1.dom() == ch0.dom(),
        forall|j2: int|
            #[trigger] ch0.dom().contains(j2) ==> ch1[j2] == (if ch0[j2].len() >= 2
                && ch0[j2].last() == t as int && ch0[j2][ch0[j2].len() - 2] == c as int {
                ch0[j2].drop_last()
            } else {
                ch0[j2]
            }),
    ensures
        chains_ok(ns1, ch1, pl),
{
    assert forall|j: int| live(ns1, j) implies chain_ok(ns1, ch1, pl, j) by {
        assert(live(ns0, j));
        assert(chain_ok(ns0, ch0, pl, j));
        assert(chain_ok(ns0, ch0, pl, t as int));
        assert(chain_ok(ns0, ch0, pl, c as int));
        if let Some(q) = node_of(ns0, j).parent {
            assert(live(ns0, q as int));
            assert(chain_ok(ns0, ch0, pl, q as int));
            assert(ch0.dom().contains(q as int));
        }
        assert(ch0.dom().contains(j));
        if ch0[j].len() >= 2 && ch0[j].last() == t as int && ch0[j][ch0[j].len() - 2]
            == c as int {
            lemma_release_chain_short(ns0, ns1, ch0, ch1, pl, t, c, j);
        } else {
            lemma_release_chain_same(ns0, ns1, ch0, ch1, pl, t, c, j);
        }
    }
}

/// Copy a bucket, leaving out every occurrence of one slot number.
fn remove_id(v: &Vec<usize>, id: usize) -> (r: Vec<usize>)
    ensures
        forall|x: usize| #[trigger] r@.contains(x) <==> (v@.contains(x) && x != id),
{
    let mut r: Vec<usize> = Vec::new();
    let mut k: usize = 0;
    while k < v.len()
        invariant
            k <= v@.len(),
            forall|x: usize|
                #[trigger] r@.contains(x) <==> (v@.subrange(0, k as int).contains(x) && x != id),
        decreases v@.len() - k,
    {
        let ghost r0 = r@;
        let x = v[k];
        if x != id {
            r.push(x);
        }
        proof {
            let sk = v@.subrange(0, k as int);
            let sk1 = v@.subrange(0, k + 1);
            assert(sk1 =~= sk.push(v@[k as int]));
            assert forall|y: usize|
                #[trigger] r@.contains(y) <==> (sk1.contains(y) && y != id) by {
                if r@.contains(y) {
                    let w = choose|w: int| 0 <= w < r@.len() && (#[trigger] r@[w]) == y;
                    if x != id && w == r@.len() - 1 {
                        assert(r@ == r0.push(x));
                        assert(y == x);
                        assert(sk1[k as int] == x);
                        assert(sk1.contains(y));
                    } else {
                        assert(r0[w] == y);
                        assert(r0.contains(y));
                        assert(sk.contains(y) && y != id);
                        let w2 = choose|w2: int| 0 <= w2 < sk.len() && (#[trigger] sk[w2]) == y;
                        assert(sk1[w2] == y);
                        assert(sk1.contains(y));
                    }
                }
                if sk1.contains(y) && y != id {
                    let w = choose|w: int| 0 <= w < sk1.len() && (#[trigger] sk1[w]) == y;
                    if w == k as int {
                        assert(y == v@[k as int]);
                        assert(r@ == r0.push(x));
                        assert(r@.last() == x);
                        assert(r@.contains(y));
                    } else {
                        assert(sk[w] == y);
                        assert(sk.contains(y));
                        assert(r0.contains(y));
                        let w2 = choose|w2: int| 0 <= w2 < r0.len() && (#[trigger] r0[w2]) == y;
                        if x != id {
                            assert(r@ == r0.push(x));
                            assert(r@[w2] == y);
                        } else {
                            assert(r@ == r0);
                        }
                        assert(r@.contains(y));
                    }
                }
            }
        }
        k = k + 1;
    }
    proof {
        assert(v@.subrange(0, v@.len() as int) =~= v@);
    }
    r
}


/// The state of a heap midway through releasing the children of the
/// detached root `t`: the first `ci` children have been cleared and
/// appended to the root list, the rest still point at `t`, and every
/// invariant holds with `t` treated as outside the forest.
spec fn releasing_ok<V>(
    h: BinomialHeap<V>,
    ns_a: Seq<Option<Node<V>>>,
    tr_a: Seq<usize>,
    t: usize,
    ci: int,
) -> bool {
    let kids = node_of(ns_a, t as int).children@;
    let pl = h.policy;
    &&& 0 <= ci <= kids.len()
    &&& h.top is None
    &&& h.nodes@.len() == ns_a.len()
    &&& forall|j: int| live(h.nodes@, j) == live(ns_a, j)
    &&& bag(h.nodes@) == bag(ns_a)
    &&& live(h.nodes@, t as int)
    &&& node_of(h.nodes@, t as int) == node_of(ns_a, t as int)
    &&& node_of(h.nodes@, t as int).parent is None
    &&& forall|j: int|
        live(ns_a, j) ==> (#[trigger] node_of(h.nodes@, j)).key == node_of(ns_a, j).key
            && node_of(h.nodes@, j).val == node_of(ns_a, j).val && node_of(h.nodes@, j).children
            == node_of(ns_a, j).children
    &&& forall|j: int|
        live(ns_a, j) && !kids.subrange(0, ci).contains(j as usize) ==> (#[trigger] node_of(
            h.nodes@,
            j,
        )).parent == node_of(ns_a, j).parent
    &&& forall|idx: int|
        0 <= idx < ci ==> node_of(h.nodes@, (#[trigger] kids[idx]) as int).parent is None
    &&& forall|idx: int|
        0 <= idx < kids.len() ==> live(h.nodes@, (#[trigger] kids[idx]) as int) && kids[idx] != t
            && node_of(h.nodes@, kids[idx] as int).children@.len() == idx
    &&& forall|idx: int|
        ci <= idx < kids.len() ==> node_of(h.nodes@, (#[trigger] kids[idx]) as int).parent
            == Some(t)
    &&& h.trees@ == tr_a + kids.subrange(0, ci)
    &&& forall|m: int|
        0 <= m < h.trees@.len() ==> live(h.nodes@, (#[trigger] h.trees@[m]) as int) && node_of(
            h.nodes@,
            h.trees@[m] as int,
        ).parent is None && h.trees@[m] != t
    &&& forall|m1: int, m2: int| 0 <= m1 < m2 < h.trees@.len() ==> h.trees@[m1] != h.trees@[m2]
    &&& forall|j: int|
        live(h.nodes@, j) && j != t as int ==> node_ok(h.nodes@, pl, h.trees@, Seq::empty(), j)
    &&& chains_ok(h.nodes@, h.chains@, pl)
}

impl<V> BinomialHeap<V> {

    /// The consolidation guarantee: no two roots of the forest share a
    /// degree.  `pop` re-establishes this after every extraction.
    pub closed spec fn consolidated(&self) -> bool {
        forall|k1: int, k2: int|
            0 <= k1 < k2 < self.trees@.len() ==> ndeg(
                self.nodes@,
                (#[trigger] self.trees@[k1]) as int,
            ) != ndeg(self.nodes@, (#[trigger] self.trees@[k2]) as int)
    }


    /// Clear the parent link of the `ci`-th child of the detached root
    /// `t` and append it to the root list as a tree of its own.
    #[verifier::rlimit(100)]
    fn release_child(
        &mut self,
        t: usize,
        ci: usize,
        Ghost(ns_a): Ghost<Seq<Option<Node<V>>>>,
        Ghost(tr_a): Ghost<Seq<usize>>,
    )
        requires
            releasing_ok(*old(self), ns_a, tr_a, t, ci as int),
            (ci as int) < node_of(ns_a, t as int).children@.len(),
        ensures
            releasing_ok(*final(self), ns_a, tr_a, t, ci + 1),
            final(self).hash == old(self).hash,
            final(self).total == old(self).total,
            final(self).policy == old(self).policy,
    {
        let ghost pl = self.policy;
        let ghost kids = node_of(ns_a, t as int).children@;
        let ghost deg = kids.len();
        let nl = self.nodes.len();
        let c = arena_get(&self.nodes, t).children[ci];
        let ghost ns_b = self.nodes@;
        let ghost tr_b = self.trees@;
        let ghost ch_b = self.chains@;
        proof {
            assert(c == kids[ci as int]);
            assert(live(ns_b, c as int));
            assert(node_of(ns_b, c as int).parent == Some(t));
            assert(c != t);
            assert(!kids.subrange(0, ci as int).contains(c)) by {
                if kids.subrange(0, ci as int).contains(c) {
                    let w = choose|w: int|
                        0 <= w < ci && (#[trigger] kids.subrange(0, ci as int)[w]) == c;
                    assert(kids[w] == c);
                    assert(node_of(ns_a, kids[w] as int).children@.len() == w);
                    assert(node_of(ns_a, kids[ci as int] as int).children@.len() == ci);
                }
            }
            assert(node_of(ns_b, c as int).parent == Some(t));
        }
        set_parent(&mut self.nodes, c, None);
        proof {
            self.chains@ = Map::new(
                |j: int| ch_b.dom().contains(j),
                |j: int|
                    if ch_b[j].len() >= 2 && ch_b[j].last() == t as int
                        && ch_b[j][ch_b[j].len() - 2] == c as int {
                        ch_b[j].drop_last()
                    } else {
                        ch_b[j]
                    },
            );
            assert(self.chains@.dom() =~= ch_b.dom());
            assert forall|j2: int|
                live(ns_b, j2) && node_of(ns_b, j2).parent is Some implies live(
                ns_b,
                node_of(ns_b, j2).parent->Some_0 as int,
            ) by {
                if j2 != t as int {
                    assert(node_ok(ns_b, pl, tr_b, Seq::empty(), j2));
                }
            }
            lemma_release_chains(ns_b, self.nodes@, ch_b, self.chains@, pl, t, c);
        }
        self.trees.push(c);
        proof {
            let ns = self.nodes@;
            let tr = self.trees@;
            assert(tr == tr_b.push(c));
            assert(tr[tr_b.len() as int] == c);
            assert(kids.subrange(0, ci + 1) =~= kids.subrange(0, ci as int).push(c));
            assert(tr =~= tr_a + kids.subrange(0, ci + 1));
            assert(node_of(ns, t as int) == node_of(ns_b, t as int));
            assert forall|m: int| 0 <= m < tr.len() implies live(
                ns,
                (#[trigger] tr[m]) as int,
            ) && node_of(ns, tr[m] as int).parent is None && tr[m] != t by {
                if m < tr_b.len() {
                    assert(tr[m] == tr_b[m]);
                    assert(node_of(ns, tr_b[m] as int) == node_of(ns_b, tr_b[m] as int)) by {
                        assert(tr_b[m] != c);
                    }
                } else {
                    assert(tr[m] == c);
                }
            }
            assert forall|m1: int, m2: int| 0 <= m1 < m2 < tr.len() implies tr[m1]
                != tr[m2] by {
                if m2 == tr_b.len() {
                    assert(tr[m2] == c);
                    assert(tr[m1] == tr_b[m1]);
                    assert(node_of(ns_b, tr_b[m1] as int).parent is None);
                    assert(node_of(ns_b, c as int).parent == Some(t));
                }
            }
            assert forall|j: int| live(ns, j) && j != t as int implies node_ok(
                ns,
                pl,
                tr,
                Seq::empty(),
                j,
            ) by {
                if j == c as int {
                    assert(in_roots(tr, j));
                    let n = node_of(ns, j);
                    assert(n.children == node_of(ns_a, j).children);
                    assert forall|ci2: int| 0 <= ci2 < n.children@.len() implies {
                        let cc = (#[trigger] n.children@[ci2]) as int;
                        &&& live(ns, cc)
                        &&& cc != j
                        &&& node_of(ns, cc).parent == Some(j as usize)
                        &&& node_of(ns, cc).children@.len() == ci2
                    } by {
                        assert(node_ok(ns_b, pl, tr_b, Seq::empty(), j));
                        assert(node_of(ns_b, j).children@[ci2] == n.children@[ci2]);
                        let cc = n.children@[ci2] as int;
                        assert(live(ns_b, cc) && node_of(ns_b, cc).parent == Some(j as usize)
                            && node_of(ns_b, cc).children@.len() == ci2);
                        assert(cc != c as int) by {
                            if cc == c as int {
                                assert(node_of(ns_b, cc).parent == Some(t));
                            }
                        }
                        assert(node_of(ns, cc) == node_of(ns_b, cc));
                    }
                } else {
                    assert(live(ns_b, j));
                    assert(node_ok(ns_b, pl, tr_b, Seq::empty(), j));
                    let n = node_of(ns, j);
                    let nb = node_of(ns_b, j);
                    assert(n == nb) by {
                        assert(j != c as int);
                    }
                    if n.parent is None {
                        assert(in_roots(tr_b, j));
                        let m = choose|m: int|
                            0 <= m < tr_b.len() && (#[trigger] tr_b[m]) == j as usize;
                        assert(tr[m] == j as usize);
                        assert(in_roots(tr, j));
                    } else {
                        let q = n.parent->Some_0;
                        assert(live(ns_b, q as int) && node_of(ns_b, q as int).children@.contains(
                            j as usize,
                        ));
                        assert(node_of(ns, q as int).children == node_of(
                            ns_b,
                            q as int,
                        ).children) by {
                            if q != c {
                                assert(node_of(ns, q as int) == node_of(ns_b, q as int));
                            }
                        }
                    }
                    assert forall|ci2: int| 0 <= ci2 < n.children@.len() implies {
                        let cc = (#[trigger] n.children@[ci2]) as int;
                        &&& live(ns, cc)
                        &&& cc != j
                        &&& node_of(ns, cc).parent == Some(j as usize)
                        &&& node_of(ns, cc).children@.len() == ci2
                    } by {
                        let cc = n.children@[ci2] as int;
                        assert(live(ns_b, cc) && node_of(ns_b, cc).parent == Some(j as usize)
                            && node_of(ns_b, cc).children@.len() == ci2);
                        assert(cc != c as int) by {
                            if cc == c as int {
                                assert(node_of(ns_b, cc).parent == Some(t));
                            }
                        }
                        assert(node_of(ns, cc) == node_of(ns_b, cc));
                    }
                }
            }
            assert forall|j: int|
                live(ns_a, j) && !kids.subrange(0, ci + 1).contains(j as usize)
                    implies (#[trigger] node_of(ns, j)).parent == node_of(ns_a, j).parent by {
                assert(!kids.subrange(0, ci as int).contains(j as usize)) by {
                    if kids.subrange(0, ci as int).contains(j as usize) {
                        let w = choose|w: int|
                            0 <= w < ci && (#[trigger] kids.subrange(0, ci as int)[w])
                                == j as usize;
                        assert(kids.subrange(0, ci + 1)[w] == j as usize);
                    }
                }
                assert(j != c as int) by {
                    assert(kids.subrange(0, ci + 1)[ci as int] == c);
                }
            }
        }

    }

    /// Remove and return the best entry; `None` exactly when empty.
    ///
    /// The tracked top tree leaves the root list, its children re-enter
    /// the forest as roots, and the forest is consolidated.
    #[verifier::rlimit(100)]
    #[verifier::loop_isolation(false)]
    pub fn pop(&mut self) -> (r: Option<(i64, V)>)
        requires
            old(self).well_formed(),
        ensures
            final(self).well_formed(),
            final(self).policy_spec() == old(self).policy_spec(),
            (r is Some) <==> old(self)@.len() > 0,
            r is None ==> *final(self) == *old(self),
            r matches Some(kv) ==> {
                &&& old(self)@.contains((kv.0 as int, kv.1))
                &&& final(self)@ == old(self)@.remove((kv.0 as int, kv.1))
                &&& forall|p: (int, V)|
                    old(self)@.contains(p) ==> !old(self).policy_spec().better_spec(
                        p.0,
                        kv.0 as int,
                    )
            },
            r is Some ==> final(self).consolidated(),
    {
        let ghost pl = self.policy;
        let nodes_len = self.nodes.len();
        proof {
            if let Some(t0) = self.top {
                let ns = self.nodes@;
                lemma_bag_contains(ns, t0 as int);
                assert forall|p: (int, V)| bag(ns).contains(p) implies !pl.better_spec(
                    p.0,
                    nkey(ns, t0 as int),
                ) by {
                    lemma_bag_exists(ns, p);
                    let j = choose|j: int| live(ns, j) && npair(ns, j) == p;
                    assert(!pl.better_spec(nkey(ns, j), nkey(ns, t0 as int)));
                }
            }
        }
        let t = match self.remove_top_tree() {
            None => {
                proof {
                    lemma_empty_forest_empty_bag(self.nodes@, self.chains@, pl, self.trees@);
                }
                return None;
            },
            Some(t) => t,
        };
        let ghost ns_a = self.nodes@;
        let ghost tr_a = self.trees@;
        proof {
            assert(ns_a == old(self).nodes@);
            assert(ns_a.len() == nodes_len);
            let tr0 = old(self).trees@;
            let k = choose|k: int| 0 <= k < tr0.len() && tr0[k] == t && tr_a == tr0.remove(k);
            assert forall|m: int| 0 <= m < tr_a.len() implies tr_a[m] != t by {
                if m < k {
                    assert(tr_a[m] == tr0[m]);
                } else {
                    assert(tr_a[m] == tr0[m + 1]);
                }
            }
            assert forall|m: int| 0 <= m < tr_a.len() implies live(ns_a, (#[trigger] tr_a[m]) as int)
                && node_of(ns_a, tr_a[m] as int).parent is None by {
                if m < k {
                    assert(tr_a[m] == tr0[m]);
                } else {
                    assert(tr_a[m] == tr0[m + 1]);
                }
            }
            assert forall|m1: int, m2: int| 0 <= m1 < m2 < tr_a.len() implies tr_a[m1]
                != tr_a[m2] by {
                assert(tr_a[m1] == if m1 < k {
                    tr0[m1]
                } else {
                    tr0[m1 + 1]
                });
                assert(tr_a[m2] == if m2 < k {
                    tr0[m2]
                } else {
                    tr0[m2 + 1]
                });
            }
            assert forall|j: int| live(ns_a, j) && j != t as int implies node_ok(
                ns_a,
                pl,
                tr_a,
                Seq::empty(),
                j,
            ) by {
                assert(node_ok(ns_a, pl, tr0, Seq::empty(), j));
                if node_of(ns_a, j).parent is None {
                    assert(in_roots(tr0, j));
                    let m = choose|m: int| 0 <= m < tr0.len() && (#[trigger] tr0[m]) == j as usize;
                    assert(m != k);
                    if m < k {
                        assert(tr_a[m] == j as usize);
                    } else {
                        assert(tr_a[m - 1] == j as usize);
                    }
                    assert(in_roots(tr_a, j));
                }
            }
        }
        // the children of the extracted root become roots themselves
        let deg = arena_get(&self.nodes, t).children.len();
        let ghost kids = node_of(ns_a, t as int).children@;
        let mut ci: usize = 0;
        proof {
            assert(kids.subrange(0, 0) =~= Seq::<usize>::empty());
            assert(self.trees@ =~= tr_a + kids.subrange(0, 0));
            assert(node_ok(ns_a, pl, old(self).trees@, Seq::empty(), t as int));
            assert forall|idx: int| 0 <= idx < kids.len() implies live(
                self.nodes@,
                (#[trigger] kids[idx]) as int,
            ) && kids[idx] != t && node_of(self.nodes@, kids[idx] as int).children@.len() == idx
                && node_of(self.nodes@, kids[idx] as int).parent == Some(t) by {}
            assert(releasing_ok(*self, ns_a, tr_a, t, 0));
        }
        while ci < deg
            invariant
                releasing_ok(*self, ns_a, tr_a, t, ci as int),
                self.hash == old(self).hash,
                self.total == old(self).total,
                self.policy == pl,
                deg == kids.len(),
                ci <= deg,
            decreases deg - ci,
        {
            self.release_child(t, ci, Ghost(ns_a), Ghost(tr_a));
            ci = ci + 1;
        }
        // extract the payload of the old top
        let ghost ns_c = self.nodes@;
        proof {
            assert(releasing_ok(*self, ns_a, tr_a, t, deg as int));
            assert(kids.subrange(0, deg as int) =~= kids);
            assert forall|x: int| live(ns_c, x) implies node_of(ns_c, x).parent != Some(t) by {
                if node_of(ns_c, x).parent == Some(t) {
                    assert(x != t as int);
                    assert(node_ok(ns_c, pl, self.trees@, Seq::empty(), x));
                    assert(node_of(ns_c, t as int).children@.contains(x as usize));
                    let w = choose|w: int|
                        0 <= w < kids.len() && (#[trigger] kids[w]) == x as usize;
                    assert(node_of(ns_c, kids[w] as int).parent is None);
                }
            }
        }
        let node = arena_take(&mut self.nodes, t);
        proof {
            let ns = self.nodes@;
            assert forall|j: int| live(ns, j) implies node_ok(ns, pl, self.trees@, Seq::empty(), j)
                && chain_ok(ns, self.chains@, pl, j) by {
                assert(live(ns_c, j) && j != t as int);
                assert(node_ok(ns_c, pl, self.trees@, Seq::empty(), j));
                assert(chain_ok(ns_c, self.chains@, pl, j));
                let n = node_of(ns_c, j);
                assert(node_of(ns, j) == n);
                assert forall|ci2: int| 0 <= ci2 < n.children@.len() implies live(
                    ns,
                    (#[trigger] n.children@[ci2]) as int,
                ) && node_of(ns, n.children@[ci2] as int) == node_of(
                    ns_c,
                    n.children@[ci2] as int,
                ) by {
                    let cc = n.children@[ci2] as int;
                    assert(live(ns_c, cc) && node_of(ns_c, cc).parent == Some(j as usize));
                    assert(cc != t as int) by {
                        if cc == t as int {
                            assert(node_of(ns_c, t as int).parent is None);
                        }
                    }
                }
                if n.parent is Some {
                    let q = n.parent->Some_0;
                    assert(q != t);
                    assert(node_of(ns, q as int) == node_of(ns_c, q as int));
                }
                let cj = self.chains@[j];
                assert forall|m: int| 0 <= m < cj.len() implies (#[trigger] cj[m]) != t as int
                    && live(ns, cj[m]) && node_of(ns, cj[m]) == node_of(ns_c, cj[m]) by {
                    if m == 0 {
                        assert(cj[m] == j);
                    } else {
                        assert(node_of(ns_c, cj[m - 1]).parent == Some(cj[m] as usize));
                        assert(live(ns_c, cj[m - 1]));
                        if cj[m] == t as int {
                            assert(node_of(ns_c, cj[m - 1]).parent == Some(t));
                            assert(false);
                        }
                    }
                    assert(live(ns_c, cj[m]));
                }
            }
            assert forall|m: int| 0 <= m < self.trees@.len() implies live(
                ns,
                (#[trigger] self.trees@[m]) as int,
            ) && node_of(ns, self.trees@[m] as int).parent is None by {
                assert(self.trees@[m] != t);
            }
        }
        self.heapify();
        // drop the extracted slot from the index
        let ghost ns_d = self.nodes@;
        let ghost h0 = self.hash@;
        proof {
            assert(h0 == old(self).hash@);
            assert(hash_ok(old(self).nodes@, h0));
            assert(h0.contains_key(node.key) && h0[node.key]@.contains(t)) by {
                assert(live(ns_a, t as int));
                assert(node_of(ns_a, t as int).key == node.key);
            }
        }
        let bucket = self.hash.remove(&node.key).unwrap();
        let filtered = remove_id(&bucket, t);
        if filtered.len() > 0 {
            self.hash.insert(node.key, filtered);
        }
        proof {
            lemma_bag_contains(ns_a, t as int);
        }
        self.total = self.total - 1;
        proof {
            let ns = self.nodes@;
            let h = self.hash@;
            let pair = (node.key as int, node.val);
            assert(bag(ns) == bag(ns_a).remove(pair));
            // the index
            assert forall|k2: i64, tt: int|
                h.contains_key(k2) && 0 <= tt < h[k2]@.len() implies {
                let j = (#[trigger] h[k2]@[tt]) as int;
                &&& live(ns, j)
                &&& node_of(ns, j).key == k2
            } by {
                let j = h[k2]@[tt] as int;
                if k2 == node.key {
                    assert(h.contains_key(k2) ==> h[k2] == filtered);
                    assert(filtered@.contains(h[k2]@[tt]));
                    assert(bucket@.contains(h[k2]@[tt]) && h[k2]@[tt] != t);
                    assert(bucket == h0[node.key]);
                    assert(live(ns_a, j) && node_of(ns_a, j).key == k2) by {
                        let w = choose|w: int|
                            0 <= w < bucket@.len() && (#[trigger] bucket@[w]) == h[k2]@[tt];
                        assert(live(old(self).nodes@, bucket@[w] as int));
                    }
                    assert(live(ns, j)) by {
                        assert(live(ns_c, j) && j != t as int);
                    }
                    assert(node_of(ns, j).key == node_of(ns_a, j).key) by {
                        assert(npair(ns, j) == npair(ns_c.update(t as int, None), j));
                    }
                } else {
                    assert(h[k2] == h0[k2]);
                    assert(live(ns_a, j) && node_of(ns_a, j).key == k2) by {
                        assert(h0[k2]@[tt] == h[k2]@[tt]);
                    }
                    assert(j != t as int) by {
                        assert(node_of(ns_a, t as int).key == node.key);
                    }
                    assert(live(ns, j));
                    assert(node_of(ns, j).key == node_of(ns_a, j).key) by {
                        assert(npair(ns, j) == npair(ns_c.update(t as int, None), j));
                    }
                }
            }
            assert forall|j: int| live(ns, j) implies h.contains_key(
                (#[trigger] node_of(ns, j)).key,
            ) && h[node_of(ns, j).key]@.contains(j as usize) by {
                assert(live(ns_a, j) && j != t as int);
                assert(node_of(ns, j).key == node_of(ns_a, j).key) by {
                    assert(npair(ns, j) == npair(ns_c.update(t as int, None), j));
                }
                let k2 = node_of(ns_a, j).key;
                assert(h0.contains_key(k2) && h0[k2]@.contains(j as usize));
                if k2 == node.key {
                    assert(bucket@.contains(j as usize));
                    assert(filtered@.contains(j as usize)) by {
                        assert(j as usize != t);
                    }
                    assert(filtered@.len() > 0) by {
                        let w = choose|w: int|
                            0 <= w < filtered@.len() && (#[trigger] filtered@[w]) == j as usize;
                    }
                    assert(h.contains_key(k2) && h[k2] == filtered);
                } else {
                    assert(h.contains_key(k2) && h[k2] == h0[k2]);
                }
            }
            // the count
            assert(self.total == bag(ns).len()) by {
                assert(bag(ns_a).count(npair(ns_a, t as int)) >= 1);
            }
            // the result is extremal
            assert(old(self)@.contains(pair)) by {
                assert(npair(ns_a, t as int) == pair);
                lemma_bag_contains(ns_a, t as int);
            }
            assert(final(self).consolidated()) by {
                assert(trees_degrees_increasing(ns_d, final(self).trees@));
            }
        }
        Some((node.key, node.val))
    }

    /// Detach the tracked top tree from the root list, returning its
    /// slot; `None` exactly when the heap is empty.
    #[verifier::loop_isolation(false)]
    fn remove_top_tree(&mut self) -> (r: Option<usize>)
        requires
            old(self).well_formed(),
        ensures
            match r {
                None => *final(self) == *old(self) && old(self).top is None,
                Some(t) => {
                    &&& old(self).top == Some(t)
                    &&& *final(self) == (BinomialHeap {
                        top: None,
                        trees: final(self).trees,
                        ..*old(self)
                    })
                    &&& exists|k: int|
                        0 <= k < old(self).trees@.len() && old(self).trees@[k] == t
                            && final(self).trees@ == old(self).trees@.remove(k)
                },
            },
    {
        let t = match self.top {
            None => {
                return None;
            },
            Some(t) => t,
        };
        self.top = None;
        let ghost tr0 = self.trees@;
        let mut k: usize = 0;
        while k < self.trees.len()
            invariant
                *self == (BinomialHeap { top: None, ..*old(self) }),
                self.trees@ == tr0,
                k <= tr0.len(),
                forall|m: int| 0 <= m < k ==> tr0[m] != t,
                tr0.contains(t),
            decreases tr0.len() - k,
        {
            if self.trees[k] == t {
                self.trees.remove(k);
                return Some(t);
            }
            k = k + 1;
        }
        proof {
            let m = choose|m: int| 0 <= m < tr0.len() && tr0[m] == t;
            assert(false);
        }
        None
    }


    /// One consolidation merge in bucket `i`: take two trees of degree
    /// `i`, attach the worse root as the last child of the better, and
    /// move the merged tree of degree `i + 1` into the next bucket.
    #[verifier::rlimit(100)]
    #[verifier::loop_isolation(false)]
    fn merge_step(&mut self, group: &mut Vec<Vec<usize>>, i: usize)
        requires
            i < old(group)@.len(),
            old(group)@[i as int]@.len() >= 2,
            forest_ok(old(self).nodes@, old(self).policy, old(self).trees@, old(group)@),
            buckets_ok(old(self).nodes@, old(group)@),
            buckets_distinct(old(group)@),
            trees_buckets_disjoint(old(self).trees@, old(group)@),
            roots_list_ok(old(self).nodes@, old(self).trees@),
            chains_ok(old(self).nodes@, old(self).chains@, old(self).policy),
        ensures
            final(self).policy == old(self).policy,
            final(self).hash == old(self).hash,
            final(self).total == old(self).total,
            final(self).top == old(self).top,
            final(self).trees == old(self).trees,
            final(self).nodes@.len() == old(self).nodes@.len(),
            forall|j: int| live(final(self).nodes@, j) == live(old(self).nodes@, j),
            forall|j: int|
                live(old(self).nodes@, j) ==> npair(final(self).nodes@, j) == npair(
                    old(self).nodes@,
                    j,
                ),
            bag(final(self).nodes@) == bag(old(self).nodes@),
            final(group)@.len() >= old(group)@.len(),
            bucket_trees(final(group)@) < bucket_trees(old(group)@),
            forall|bi: int|
                0 <= bi < old(group)@.len() && bi != i as int && bi != i + 1
                    ==> final(group)@[bi] == old(group)@[bi],
            final(group)@[i as int]@ == old(group)@[i as int]@.drop_last().drop_last(),
            forest_ok(final(self).nodes@, final(self).policy, final(self).trees@, final(group)@),
            buckets_ok(final(self).nodes@, final(group)@),
            buckets_distinct(final(group)@),
            trees_buckets_disjoint(final(self).trees@, final(group)@),
            roots_list_ok(final(self).nodes@, final(self).trees@),
            chains_ok(final(self).nodes@, final(self).chains@, final(self).policy),
            forall|m: int|
                0 <= m < final(self).trees@.len() ==> node_of(
                    final(self).nodes@,
                    (#[trigger] final(self).trees@[m]) as int,
                ) == node_of(old(self).nodes@, final(self).trees@[m] as int),
    {
        let ghost pl = self.policy;
        let nl = self.nodes.len();
            let ghost ns0 = self.nodes@;
            let ghost g0 = group@;
            let ghost ch0 = self.chains@;
            let a = group[i].pop().unwrap();
            let ghost ga = group@;
            let b = group[i].pop().unwrap();
            let ghost gb = group@;
            proof {
                assert(ga =~= g0.update(i as int, ga[i as int]));
                assert(gb =~= ga.update(i as int, gb[i as int]));
                assert(a == g0[i as int]@[g0[i as int]@.len() - 1]);
                assert(b == g0[i as int]@[g0[i as int]@.len() - 2]);
                assert(a != b);
                lemma_bucket_trees_update(g0, i as int, ga[i as int]);
                lemma_bucket_trees_update(ga, i as int, gb[i as int]);
            }
            let (p, c) = self.compare(a, b);
            set_parent(&mut self.nodes, c, Some(p));
            let ghost ns1 = self.nodes@;
            push_child(&mut self.nodes, p, c);
            let ghost ns2 = self.nodes@;
            proof {
                self.chains@ = Map::new(
                    |j: int| ch0.dom().contains(j),
                    |j: int|
                        if ch0[j].len() >= 1 && ch0[j].last() == c as int {
                            ch0[j].push(p as int)
                        } else {
                            ch0[j]
                        },
                );
            }
            let gl = group.len();
            proof {
                assert(i < gl);
            }
            ensure_bucket(group, i + 1);
            let ghost g3 = group@;
            group[i + 1].push(p);
            proof {
                let g4 = group@;
                let ch1 = self.chains@;
                assert(g4 =~= g3.update(i + 1, g4[i + 1]));
                assert(g4[i + 1]@ == g3[i + 1]@.push(p));
                lemma_bucket_trees_update(g3, i + 1, g4[i + 1]);
                // payload frame
                assert(node_of(ns2, c as int).parent == Some(p));
                assert(node_of(ns2, p as int).children@ == node_of(ns0, p as int).children@.push(c));
                assert forall|j: int| live(ns2, j) == live(ns0, j) by {}
                assert forall|j: int| live(ns0, j) implies npair(ns2, j) == npair(ns0, j)
                    && nkey(ns2, j) == nkey(ns0, j) by {}
                assert(ndeg(ns2, p as int) == i + 1);
                assert(ndeg(ns2, c as int) == i);
                assert(!pl.better_spec(nkey(ns2, c as int), nkey(ns2, p as int)));
                // every surviving bucket position maps into the old layout
                assert forall|bi: int, idx: int|
                    0 <= bi < g4.len() && 0 <= idx < g4[bi]@.len() && !(bi == i + 1 && idx
                        == g3[i + 1]@.len()) implies 0 <= bi < g0.len() && 0 <= idx
                    < g0[bi]@.len() && g4[bi]@[idx] == g0[bi]@[idx] && !(bi == i as int && idx
                    >= g0[i as int]@.len() - 2) by {
                    if bi < g0.len() {
                    } else {
                        assert(g3[bi]@.len() == 0 || bi == i + 1);
                    }
                }
                // bucket contents
                assert forall|bi: int, idx: int|
                    0 <= bi < g4.len() && 0 <= idx < g4[bi]@.len() implies {
                    let j = (#[trigger] g4[bi]@[idx]) as int;
                    &&& live(ns2, j)
                    &&& node_of(ns2, j).parent is None
                    &&& ndeg(ns2, j) == bi
                } by {
                    if bi == i + 1 && idx == g3[i + 1]@.len() {
                        assert(g4[bi]@[idx] == p);
                    } else {
                        let j = g4[bi]@[idx] as int;
                        assert(g4[bi]@[idx] == g0[bi]@[idx]);
                        assert(j != p as int && j != c as int) by {
                            assert(g0[i as int]@[g0[i as int]@.len() - 1] == a);
                            assert(g0[i as int]@[g0[i as int]@.len() - 2] == b);
                        }
                        assert(live(ns0, j) && node_of(ns0, j).parent is None && ndeg(ns0, j)
                            == bi);
                        assert(node_of(ns2, j) == node_of(ns0, j));
                    }
                }
                // distinctness
                assert forall|bi1: int, idx1: int, bi2: int, idx2: int|
                    0 <= bi1 < g4.len() && 0 <= idx1 < g4[bi1]@.len() && 0 <= bi2 < g4.len()
                        && 0 <= idx2 < g4[bi2]@.len() && (bi1 != bi2 || idx1 != idx2) implies #[trigger] g4[bi1]@[idx1] != #[trigger] g4[bi2]@[idx2] by {
                    if bi1 == i + 1 && idx1 == g3[i + 1]@.len() {
                        assert(g4[bi2]@[idx2] == g0[bi2]@[idx2]);
                        assert(g0[bi2]@[idx2] != g0[i as int]@[g0[i as int]@.len() - 1]);
                    } else if bi2 == i + 1 && idx2 == g3[i + 1]@.len() {
                        assert(g4[bi1]@[idx1] == g0[bi1]@[idx1]);
                        assert(g0[bi1]@[idx1] != g0[i as int]@[g0[i as int]@.len() - 1]);
                    } else {
                        assert(g4[bi1]@[idx1] == g0[bi1]@[idx1]);
                        assert(g4[bi2]@[idx2] == g0[bi2]@[idx2]);
                    }
                }
                // trees stay disjoint from buckets
                assert forall|m: int, bi: int, idx: int|
                    0 <= m < self.trees@.len() && 0 <= bi < g4.len() && 0 <= idx
                        < g4[bi]@.len() implies #[trigger] self.trees@[m]
                    != #[trigger] g4[bi]@[idx] by {
                    if bi == i + 1 && idx == g3[i + 1]@.len() {
                        assert(g4[bi]@[idx] == p);
                        assert(self.trees@[m] != g0[i as int]@[g0[i as int]@.len() - 1]);
                    } else {
                        assert(g4[bi]@[idx] == g0[bi]@[idx]);
                    }
                }
                // shape of the union
                assert(union_shape(ns0, ns2, pl, p, c));
                // surviving roots keep their forest membership
                assert forall|j: int|
                    live(ns0, j) && in_forest(self.trees@, g0, j) && j != p as int && j
                        != c as int implies in_forest(self.trees@, g4, j) by {
                    assert(ns0.len() == nl);
                    if !in_roots(self.trees@, j) {
                        let bi = choose|bi: int|
                            0 <= bi < g0.len() && g0[bi]@.contains(j as usize);
                        let idx = choose|idx: int|
                            0 <= idx < g0[bi]@.len() && g0[bi]@[idx] == j as usize;
                        if bi == i as int && idx >= g0[i as int]@.len() - 2 {
                            if idx == g0[i as int]@.len() - 1 {
                                assert(j as usize == a);
                            } else {
                                assert(idx == g0[i as int]@.len() - 2);
                                assert(j as usize == b);
                            }
                            assert(j == p as int || j == c as int);
                            assert(false);
                        } else {
                            assert(g4[bi]@[idx] == j as usize);
                            lemma_in_buckets_witness(g4, bi, idx);
                        }
                    }
                }
                assert(in_buckets(g4, p as int)) by {
                    lemma_in_buckets_witness(g4, i + 1, g3[i + 1]@.len() as int);
                }
                assert(ch1.dom() =~= ch0.dom());
                assert forall|j: int| #[trigger] ch0.dom().contains(j) implies ch1[j] == (if ch0[j].len() >= 1 && ch0[j].last() == c as int {
                    ch0[j].push(p as int)
                } else {
                    ch0[j]
                }) by {}
                lemma_union_forest(ns0, ns2, pl, self.trees@, g0, g4, p, c);
                assert forall|j: int|
                    live(ns0, j) && node_of(ns0, j).parent is Some implies live(
                    ns0,
                    node_of(ns0, j).parent->Some_0 as int,
                ) by {
                    assert(node_ok(ns0, pl, self.trees@, g0, j));
                }
                lemma_union_chains(ns0, ns2, ch0, ch1, pl, p, c);
                // the root list survives untouched
                assert forall|k2: int| 0 <= k2 < self.trees@.len() implies live(
                    ns2,
                    (#[trigger] self.trees@[k2]) as int,
                ) && node_of(ns2, self.trees@[k2] as int).parent is None by {
                    let j = self.trees@[k2] as int;
                    assert(live(ns0, j) && node_of(ns0, j).parent is None);
                    assert(j != c as int && j != p as int) by {
                        assert(self.trees@[k2] != g0[i as int]@[g0[i as int]@.len() - 1]);
                        assert(self.trees@[k2] != g0[i as int]@[g0[i as int]@.len() - 2]);
                    }
                    assert(node_of(ns2, j) == node_of(ns0, j));
                }

            }
        proof {
            assert(bucket_trees(group@) < bucket_trees(old(group)@));
            assert forall|m: int| 0 <= m < self.trees@.len() implies node_of(
                self.nodes@,
                (#[trigger] self.trees@[m]) as int,
            ) == node_of(old(self).nodes@, self.trees@[m] as int) by {
                assert(self.trees@[m] != old(group)@[i as int]@[old(group)@[i as int]@.len() - 1]);
                assert(self.trees@[m] != old(group)@[i as int]@[old(group)@[i as int]@.len() - 2]);
            }
        }
    }

    /// Consolidate the forest: group the roots by degree into buckets,
    /// then, from the lowest degree up, repeatedly merge two trees of
    /// equal degree (the worse root becomes the last child of the
    /// better) until at most one tree of each degree remains; the
    /// survivors become the new root list and the best of them the new
    /// top.
    #[verifier::rlimit(100)]
    #[verifier::loop_isolation(false)]
    fn heapify(&mut self)
        requires
            forest_ok(old(self).nodes@, old(self).policy, old(self).trees@, Seq::empty()),
            roots_list_ok(old(self).nodes@, old(self).trees@),
            chains_ok(old(self).nodes@, old(self).chains@, old(self).policy),
            old(self).top is None,
        ensures
            final(self).policy == old(self).policy,
            final(self).hash == old(self).hash,
            final(self).total == old(self).total,
            final(self).nodes@.len() == old(self).nodes@.len(),
            forall|j: int| live(final(self).nodes@, j) == live(old(self).nodes@, j),
            forall|j: int|
                live(old(self).nodes@, j) ==> npair(final(self).nodes@, j) == npair(
                    old(self).nodes@,
                    j,
                ),
            bag(final(self).nodes@) == bag(old(self).nodes@),
            forest_ok(final(self).nodes@, final(self).policy, final(self).trees@, Seq::empty()),
            roots_list_ok(final(self).nodes@, final(self).trees@),
            chains_ok(final(self).nodes@, final(self).chains@, final(self).policy),
            top_ok(final(self).nodes@, final(self).policy, final(self).top, final(self).trees@),
            trees_degrees_increasing(final(self).nodes@, final(self).trees@),
    {
        let ghost ns_start = self.nodes@;
        let ghost pl = self.policy;
        let ghost tr_start = self.trees@;
        let types = log2(self.total) + 1;
        let mut group: Vec<Vec<usize>> = Vec::new();
        ensure_bucket(&mut group, types - 1);
        // distribute the roots into buckets by degree
        let mut k: usize = 0;
        while k < self.trees.len()
            invariant
                *self == *old(self),
                k <= self.trees@.len(),
                group@.len() >= 1,
                buckets_ok(self.nodes@, group@),
                buckets_distinct(group@),
                forall|bi: int, idx: int|
                    0 <= bi < group@.len() && 0 <= idx < group@[bi]@.len() ==> exists|m: int|
                        0 <= m < k && tr_start[m] == #[trigger] group@[bi]@[idx],
                forall|m: int| 0 <= m < k ==> in_buckets(group@, (#[trigger] tr_start[m]) as int),
            decreases self.trees@.len() - k,
        {
            let ghost g0 = group@;
            let r = self.trees[k];
            let d = arena_get(&self.nodes, r).children.len();
            ensure_bucket(&mut group, d);
            let ghost g1 = group@;
            group[d].push(r);
            proof {
                let g2 = group@;
                assert(g2 =~= g1.update(d as int, g2[d as int]));
                assert(g2[d as int]@ == g1[d as int]@.push(r));
                assert(live(self.nodes@, r as int) && node_of(self.nodes@, r as int).parent
                    is None) by {
                    assert(roots_list_ok(old(self).nodes@, old(self).trees@));
                }
                assert forall|bi: int, idx: int|
                    0 <= bi < g2.len() && 0 <= idx < g2[bi]@.len() implies exists|m: int|
                    0 <= m < k + 1 && tr_start[m] == #[trigger] g2[bi]@[idx] by {
                    if bi == d as int && idx == g1[d as int]@.len() {
                        assert(tr_start[k as int] == g2[bi]@[idx]);
                    } else {
                        if bi < g0.len() {
                            assert(g2[bi]@[idx] == g0[bi]@[idx]);
                            let m = choose|m: int|
                                0 <= m < k && tr_start[m] == g0[bi]@[idx];
                            assert(tr_start[m] == g2[bi]@[idx]);
                        } else {
                            assert(g1[bi]@.len() == 0);
                        }
                    }
                }
                assert forall|bi1: int, idx1: int, bi2: int, idx2: int|
                    0 <= bi1 < g2.len() && 0 <= idx1 < g2[bi1]@.len() && 0 <= bi2 < g2.len() && 0
                        <= idx2 < g2[bi2]@.len() && (bi1 != bi2 || idx1 != idx2) implies #[trigger] g2[bi1]@[idx1] != #[trigger] g2[bi2]@[idx2] by {
                    if bi1 == d as int && idx1 == g1[d as int]@.len() {
                        let m2 = choose|m: int| 0 <= m < k && tr_start[m] == g2[bi2]@[idx2];
                        assert(tr_start[k as int] != tr_start[m2]);
                    } else if bi2 == d as int && idx2 == g1[d as int]@.len() {
                        let m1 = choose|m: int| 0 <= m < k && tr_start[m] == g2[bi1]@[idx1];
                        assert(tr_start[k as int] != tr_start[m1]);
                    } else {
                        assert(g2[bi1]@[idx1] == g0[bi1]@[idx1] || g1[bi1]@.len() == 0);
                        assert(g2[bi2]@[idx2] == g0[bi2]@[idx2] || g1[bi2]@.len() == 0);
                    }
                }
                assert forall|m: int| 0 <= m < k + 1 implies in_buckets(
                    group@,
                    (#[trigger] tr_start[m]) as int,
                ) by {
                    if m < k {
                        assert(in_buckets(g0, tr_start[m] as int));
                        let bi = choose|bi: int|
                            0 <= bi < g0.len() && g0[bi]@.contains(tr_start[m] as usize);
                        let idx = choose|idx: int|
                            0 <= idx < g0[bi]@.len() && g0[bi]@[idx] == tr_start[m] as usize;
                        if bi == d as int {
                            assert(g2[bi]@[idx] == tr_start[m] as usize);
                            lemma_in_buckets_witness(g2, bi, idx);
                        } else {
                            assert(g2[bi]@[idx] == tr_start[m] as usize);
                            lemma_in_buckets_witness(g2, bi, idx);
                        }
                    } else {
                        lemma_in_buckets_witness(g2, d as int, g1[d as int]@.len() as int);
                    }
                }
            }
            k = k + 1;
        }
        self.trees.clear();
        proof {
            assert forall|j: int| live(self.nodes@, j) implies node_ok(
                self.nodes@,
                pl,
                self.trees@,
                group@,
                j,
            ) by {
                assert(node_ok(ns_start, pl, tr_start, Seq::empty(), j));
                if node_of(self.nodes@, j).parent is None {
                    assert(in_roots(tr_start, j));
                    let m = choose|m: int| 0 <= m < tr_start.len() && tr_start[m] == j as usize;
                    assert(in_buckets(group@, j));
                }
            }
        }
        // merge pass, lowest degree upward
        let mut i: usize = 0;
        while i < group.len()
            invariant
                self.policy == pl,
                self.hash == old(self).hash,
                self.total == old(self).total,
                self.nodes@.len() == ns_start.len(),
                forall|j: int| live(self.nodes@, j) == live(ns_start, j),
                forall|j: int| live(ns_start, j) ==> npair(self.nodes@, j) == npair(ns_start, j),
                bag(self.nodes@) == bag(ns_start),
                i <= group@.len(),
                group@.len() >= 1,
                forest_ok(self.nodes@, pl, self.trees@, group@),
                buckets_ok(self.nodes@, group@),
                buckets_distinct(group@),
                trees_buckets_disjoint(self.trees@, group@),
                roots_list_ok(self.nodes@, self.trees@),
                chains_ok(self.nodes@, self.chains@, pl),
                forall|bi: int| 0 <= bi < i ==> group@[bi]@.len() == 0,
                forall|m: int|
                    0 <= m < self.trees@.len() ==> ndeg(
                        self.nodes@,
                        (#[trigger] self.trees@[m]) as int,
                    ) < i,
                trees_degrees_increasing(self.nodes@, self.trees@),
                match self.top {
                    None => self.trees@.len() == 0,
                    Some(t) => {
                        &&& live(self.nodes@, t as int)
                        &&& self.trees@.contains(t)
                        &&& forall|m: int|
                            0 <= m < self.trees@.len() ==> !pl.better_spec(
                                nkey(self.nodes@, (#[trigger] self.trees@[m]) as int),
                                nkey(self.nodes@, t as int),
                            )
                    },
                },
            decreases bucket_trees(group@), group@.len() - i,
        {
            let ghost g_outer = group@;
            while group[i].len() >= 2
                invariant
                    i < group@.len(),
                    group@.len() >= g_outer.len(),
                    bucket_trees(group@) <= bucket_trees(g_outer),
                    group@.len() == g_outer.len() || bucket_trees(group@) < bucket_trees(g_outer),
                    self.policy == pl,
                    self.hash == old(self).hash,
                    self.total == old(self).total,
                    self.nodes@.len() == ns_start.len(),
                    forall|j: int| live(self.nodes@, j) == live(ns_start, j),
                    forall|j: int|
                        live(ns_start, j) ==> npair(self.nodes@, j) == npair(ns_start, j),
                    bag(self.nodes@) == bag(ns_start),
                    forest_ok(self.nodes@, pl, self.trees@, group@),
                    buckets_ok(self.nodes@, group@),
                    buckets_distinct(group@),
                    trees_buckets_disjoint(self.trees@, group@),
                    roots_list_ok(self.nodes@, self.trees@),
                    chains_ok(self.nodes@, self.chains@, pl),
                    forall|bi: int| 0 <= bi < i ==> group@[bi]@.len() == 0,
                    forall|m: int|
                        0 <= m < self.trees@.len() ==> ndeg(
                            self.nodes@,
                            (#[trigger] self.trees@[m]) as int,
                        ) < i,
                    trees_degrees_increasing(self.nodes@, self.trees@),
                    match self.top {
                        None => self.trees@.len() == 0,
                        Some(t) => {
                            &&& live(self.nodes@, t as int)
                            &&& self.trees@.contains(t)
                            &&& forall|m: int|
                                0 <= m < self.trees@.len() ==> !pl.better_spec(
                                    nkey(self.nodes@, (#[trigger] self.trees@[m]) as int),
                                    nkey(self.nodes@, t as int),
                                )
                        },
                    },
                decreases bucket_trees(group@),
            {
                let ghost mid_ns = self.nodes@;
                let ghost mid_gr = group@;
                self.merge_step(&mut group, i);
                proof {
                    let ns = self.nodes@;
                    assert forall|j: int| live(ns, j) == live(ns_start, j) by {
                        assert(live(ns, j) == live(mid_ns, j));
                    }
                    assert forall|j: int| live(ns_start, j) implies npair(ns, j) == npair(
                        ns_start,
                        j,
                    ) by {
                        assert(live(mid_ns, j));
                        assert(npair(ns, j) == npair(mid_ns, j));
                    }
                    assert forall|bi: int| 0 <= bi < i implies group@[bi]@.len() == 0 by {
                        assert(group@[bi] == mid_gr[bi]) by {
                            assert(bi != i as int && bi != i + 1);
                        }
                        assert(mid_gr[bi]@.len() == 0);
                    }
                    assert forall|m: int|
                        0 <= m < self.trees@.len() implies ndeg(
                        self.nodes@,
                        (#[trigger] self.trees@[m]) as int,
                    ) < i by {
                        assert(node_of(ns, self.trees@[m] as int) == node_of(
                            mid_ns,
                            self.trees@[m] as int,
                        ));
                    }
                    assert forall|m1: int, m2: int|
                        0 <= m1 < m2 < self.trees@.len() implies ndeg(
                        ns,
                        (#[trigger] self.trees@[m1]) as int,
                    ) < ndeg(ns, (#[trigger] self.trees@[m2]) as int) by {
                        assert(node_of(ns, self.trees@[m1] as int) == node_of(
                            mid_ns,
                            self.trees@[m1] as int,
                        ));
                        assert(node_of(ns, self.trees@[m2] as int) == node_of(
                            mid_ns,
                            self.trees@[m2] as int,
                        ));
                    }
                    match self.top {
                        None => {},
                        Some(t) => {
                            assert(self.trees@.contains(t));
                            let mt = choose|m: int|
                                0 <= m < self.trees@.len() && self.trees@[m] == t;
                            assert(node_of(ns, t as int) == node_of(mid_ns, t as int));
                            assert forall|m: int|
                                0 <= m < self.trees@.len() implies !pl.better_spec(
                                nkey(ns, (#[trigger] self.trees@[m]) as int),
                                nkey(ns, t as int),
                            ) by {
                                assert(node_of(ns, self.trees@[m] as int) == node_of(
                                    mid_ns,
                                    self.trees@[m] as int,
                                ));
                            }
                        },
                    }
                }
            }
            let ghost gpre = group@;
            let ghost nspre = self.nodes@;
            let ghost trpre = self.trees@;
            if group[i].len() > 0 {
                {
                    let r = group[i].pop().unwrap();
                    proof {
                        assert(group@ =~= gpre.update(i as int, group@[i as int]));
                        lemma_bucket_trees_update(gpre, i as int, group@[i as int]);
                    }
                    let ghost toppre = self.top;
                    proof {
                        assert(r == gpre[i as int]@.last());
                        assert(live(nspre, r as int) && node_of(nspre, r as int).parent is None
                            && ndeg(nspre, r as int) == i);
                    }
                    self.update_top(r);
                    self.trees.push(r);
                    proof {
                        let ns = self.nodes@;
                        let g6 = group@;
                        let tr6 = self.trees@;
                        assert(ns == nspre);
                        assert(tr6 == trpre.push(r));
                        assert(tr6[trpre.len() as int] == r);
                        assert(g6[i as int]@ =~= gpre[i as int]@.drop_last());
                        // bucket i is now empty
                        assert(gpre[i as int]@.len() == 1);
                        assert(g6[i as int]@.len() == 0);
                        // surviving bucket entries sit where they sat
                        assert forall|bi: int, idx: int|
                            0 <= bi < g6.len() && 0 <= idx < g6[bi]@.len() implies g6[bi]@[idx]
                            == gpre[bi]@[idx] && !(bi == i as int) by {}
                        // the root list
                        assert forall|k2: int| 0 <= k2 < tr6.len() implies live(
                            ns,
                            (#[trigger] tr6[k2]) as int,
                        ) && node_of(ns, tr6[k2] as int).parent is None by {
                            if k2 < trpre.len() {
                                assert(tr6[k2] == trpre[k2]);
                            } else {
                                assert(tr6[k2] == r);
                            }
                        }
                        assert forall|k1: int, k2: int| 0 <= k1 < k2 < tr6.len() implies tr6[k1]
                            != tr6[k2] by {
                            if k2 == trpre.len() {
                                assert(tr6[k2] == r);
                                assert(trpre[k1] != gpre[i as int]@[gpre[i as int]@.len() - 1]);
                            }
                        }
                        // degrees stay strictly increasing and bounded
                        assert forall|m: int| 0 <= m < tr6.len() implies ndeg(
                            ns,
                            (#[trigger] tr6[m]) as int,
                        ) < i + 1 by {
                            if m < trpre.len() {
                                assert(tr6[m] == trpre[m]);
                                assert(ndeg(ns, trpre[m] as int) < i);
                            } else {
                                assert(tr6[m] == r);
                            }
                        }
                        assert forall|m1: int, m2: int| 0 <= m1 < m2 < tr6.len() implies ndeg(
                            ns,
                            (#[trigger] tr6[m1]) as int,
                        ) < ndeg(ns, (#[trigger] tr6[m2]) as int) by {
                            if m2 == trpre.len() {
                                assert(tr6[m1] == trpre[m1] && tr6[m2] == r);
                                assert(ndeg(ns, trpre[m1] as int) < i);
                            }
                        }
                        // disjointness of the new root from the buckets
                        assert forall|m: int, bi: int, idx: int|
                            0 <= m < tr6.len() && 0 <= bi < g6.len() && 0 <= idx
                                < g6[bi]@.len() implies #[trigger] tr6[m]
                            != #[trigger] g6[bi]@[idx] by {
                            assert(g6[bi]@[idx] == gpre[bi]@[idx]);
                            if m < trpre.len() {
                                assert(tr6[m] == trpre[m]);
                            } else {
                                assert(tr6[m] == r);
                                assert(gpre[bi]@[idx] != gpre[i as int]@[gpre[i as int]@.len()
                                    - 1]);
                            }
                        }
                        // the forest membership
                        assert forall|j: int| live(ns, j) implies node_ok(ns, pl, tr6, g6, j) by {
                            assert(node_ok(ns, pl, trpre, gpre, j));
                            if node_of(ns, j).parent is None {
                                assert(in_forest(trpre, gpre, j));
                                if in_roots(trpre, j) {
                                    let m = choose|m: int|
                                        0 <= m < trpre.len() && trpre[m] == j as usize;
                                    assert(tr6[m] == j as usize);
                                    assert(in_roots(tr6, j));
                                } else {
                                    let bi = choose|bi: int|
                                        0 <= bi < gpre.len() && gpre[bi]@.contains(j as usize);
                                    let idx = choose|idx: int|
                                        0 <= idx < gpre[bi]@.len() && gpre[bi]@[idx] == j as usize;
                                    if bi == i as int {
                                        assert(j as usize == r);
                                        assert(in_roots(tr6, j));
                                    } else {
                                        assert(g6[bi]@[idx] == j as usize);
                                        lemma_in_buckets_witness(g6, bi, idx);
                                    }
                                }
                            }
                        }
                        // the top tracks the best root seen so far
                        let t2 = self.top->Some_0;
                        assert(self.top is Some);
                        assert(tr6.contains(t2)) by {
                            match toppre {
                                None => {
                                    assert(t2 == r);
                                    assert(tr6[trpre.len() as int] == t2);
                                },
                                Some(t) => {
                                    if t2 == r {
                                        assert(tr6[trpre.len() as int] == t2);
                                    } else {
                                        assert(t2 == t);
                                        let m = choose|m: int|
                                            0 <= m < trpre.len() && trpre[m] == t;
                                        assert(tr6[m] == t);
                                    }
                                },
                            }
                        }
                        assert forall|m: int| 0 <= m < tr6.len() implies !pl.better_spec(
                            nkey(ns, (#[trigger] tr6[m]) as int),
                            nkey(ns, t2 as int),
                        ) by {
                            match toppre {
                                None => {
                                    assert(trpre.len() == 0);
                                    assert(tr6[m] == r && t2 == r);
                                },
                                Some(t) => {
                                    if m < trpre.len() {
                                        assert(tr6[m] == trpre[m]);
                                        assert(!pl.better_spec(
                                            nkey(ns, trpre[m] as int),
                                            nkey(ns, t as int),
                                        ));
                                    } else {
                                        assert(tr6[m] == r);
                                    }
                                },
                            }
                        }
                    }
                }
            }
            i = i + 1;
        }
        let nodes_len = self.nodes.len();
        proof {
            let ns = self.nodes@;
            let tr = self.trees@;
            let g = group@;
            assert(ns.len() == nodes_len);
            assert forall|j: int| !in_buckets(g, j) by {
                if in_buckets(g, j) {
                    let bi = choose|bi: int| 0 <= bi < g.len() && g[bi]@.contains(j as usize);
                    assert(g[bi]@.len() == 0);
                }
            }
            assert forall|j: int| live(ns, j) implies node_ok(ns, pl, tr, Seq::empty(), j) by {
                assert(node_ok(ns, pl, tr, g, j));
            }
            match self.top {
                None => {},
                Some(t) => {
                    assert forall|j: int| live(ns, j) implies !pl.better_spec(
                        nkey(ns, j),
                        nkey(ns, t as int),
                    ) by {
                        assert(chain_ok(ns, self.chains@, pl, j));
                        let cj = self.chains@[j];
                        let rt = cj.last();
                        assert(live(ns, rt));
                        assert(node_of(ns, rt).parent is None);
                        assert(node_ok(ns, pl, tr, g, rt));
                        assert(in_roots(tr, rt));
                        assert(rt >= 0);
                        let m = choose|m: int| 0 <= m < tr.len() && tr[m] == rt as usize;
                        assert(tr[m] == rt as usize);
                        assert(tr[m] as int == rt);
                        assert(!pl.better_spec(nkey(ns, tr[m] as int), nkey(ns, t as int)));
                        assert(!pl.better_spec(nkey(ns, rt), nkey(ns, t as int)));
                        assert(!pl.better_spec(nkey(ns, j), nkey(ns, rt)));
                    }
                },
            }
        }
    }
}

/// The state of a heap while a decreased key bubbles upward: every
/// invariant holds except that the node in slot `q` may be better than
/// its ancestors and the tracked top; the subtree under `q` is still
/// dominated by `q`'s parent.
#[verifier::opaque]
spec fn bubbling_ok<V>(h: BinomialHeap<V>, q: usize) -> bool {
    let ns = h.nodes@;
    let pl = h.policy;
    let ch = h.chains@;
    &&& live(ns, q as int)
    &&& forall|j: int|
        #[trigger] live(ns, j) && j != q as int ==> node_ok(ns, pl, h.trees@, Seq::empty(), j)
    &&& match node_of(ns, q as int).parent {
        Some(p) => live(ns, p as int) && node_of(ns, p as int).children@.contains(q) && p != q,
        None => in_forest(h.trees@, Seq::empty(), q as int),
    }
    &&& forall|ci: int|
        0 <= ci < node_of(ns, q as int).children@.len() ==> {
            let c = (#[trigger] node_of(ns, q as int).children@[ci]) as int;
            &&& live(ns, c)
            &&& c != q as int
            &&& node_of(ns, c).parent == Some(q)
            &&& node_of(ns, c).children@.len() == ci
        }
    &&& roots_list_ok(ns, h.trees@)
    &&& forall|j: int| #[trigger] live(ns, j) && j != q as int ==> chain_ok(ns, ch, pl, j)
    &&& ch.dom().contains(q as int)
    &&& ch[q as int].len() >= 1
    &&& ch[q as int][0] == q as int
    &&& forall|m: int| 0 <= m < ch[q as int].len() ==> live(ns, #[trigger] ch[q as int][m])
    &&& forall|m: int|
        0 <= m < ch[q as int].len() - 1 ==> node_of(ns, #[trigger] ch[q as int][m]).parent
            == Some(ch[q as int][m + 1] as usize)
    &&& (node_of(ns, q as int).parent is None ==> ch[q as int] == seq![q as int])
    &&& (node_of(ns, q as int).parent matches Some(p) ==> ch[q as int] == seq![q as int] + ch[
        p as int
    ])
    &&& node_of(ns, ch[q as int].last()).parent is None
    &&& forall|j: int, m: int|
        live(ns, j) && j != q as int && 0 <= m < ch[j].len() && (#[trigger] ch[j][m])
            == q as int ==> (node_of(ns, q as int).parent matches Some(pq) ==> !pl.better_spec(
            nkey(ns, j),
            nkey(ns, pq as int),
        ))
    &&& h.top matches Some(t) && live(ns, t as int) && h.trees@.contains(t) && (forall|j: int|
        #[trigger] live(ns, j) && j != q as int ==> !pl.better_spec(
            nkey(ns, j),
            nkey(ns, h.top->Some_0 as int),
        ))
    &&& hash_ok(ns, h.hash@)
    &&& h.total == bag(ns).len()
}


/// The index lists slot `x` under key `k`.
spec fn hash_has(h: Map<i64, Vec<usize>>, k: i64, x: usize) -> bool {
    h.contains_key(k) && h[k]@.contains(x)
}


/// The arena shape of one bubble-up payload swap: the node in `curr`
/// and its parent `par` trade `(key, value)` payloads; every link and
/// every other slot stays as it was.
spec fn swap_frame<V>(
    ns0: Seq<Option<Node<V>>>,
    ns2: Seq<Option<Node<V>>>,
    pl: Policy,
    par: usize,
    curr: usize,
) -> bool {
    &&& ns0.len() <= usize::MAX
    &&& live(ns0, par as int)
    &&& live(ns0, curr as int)
    &&& par != curr
    &&& node_of(ns0, curr as int).parent == Some(par)
    &&& node_of(ns0, par as int).children@.contains(curr)
    &&& !pl.better_spec(nkey(ns0, par as int), nkey(ns0, curr as int))
    &&& ns2.len() == ns0.len()
    &&& forall|j: int| 0 <= j < ns0.len() && j != par as int && j != curr as int ==> ns2[j] == ns0[j]
    &&& live(ns2, par as int)
    &&& live(ns2, curr as int)
    &&& node_of(ns2, par as int).parent == node_of(ns0, par as int).parent
    &&& node_of(ns2, par as int).children == node_of(ns0, par as int).children
    &&& node_of(ns2, par as int).key == node_of(ns0, curr as int).key
    &&& node_of(ns2, curr as int).parent == node_of(ns0, curr as int).parent
    &&& node_of(ns2, curr as int).children == node_of(ns0, curr as int).children
    &&& node_of(ns2, curr as int).key == node_of(ns0, par as int).key
}

/// The per-node forest conditions after one bubble-up payload swap.
#[verifier::rlimit(100)]
proof fn lemma_bubble_swap_forest<V>(
    ns0: Seq<Option<Node<V>>>,
    ns2: Seq<Option<Node<V>>>,
    pl: Policy,
    tr: Seq<usize>,
    par: usize,
    curr: usize,
)
    requires
        swap_frame(ns0, ns2, pl, par, curr),
        forall|j: int|
            #[trigger] live(ns0, j) && j != curr as int ==> node_ok(ns0, pl, tr, Seq::empty(), j),
        forall|ci: int|
            0 <= ci < node_of(ns0, curr as int).children@.len() ==> {
                let c = (#[trigger] node_of(ns0, curr as int).children@[ci]) as int;
                &&& live(ns0, c)
                &&& c != curr as int
                &&& node_of(ns0, c).parent == Some(curr)
                &&& node_of(ns0, c).children@.len() == ci
            },
        forall|j: int|
            #[trigger] live(ns0, j) && node_of(ns0, j).parent == Some(curr) ==> !pl.better_spec(
                nkey(ns0, j),
                nkey(ns0, par as int),
            ),
    ensures
        forall|j: int|
            #[trigger] live(ns2, j) && j != par as int ==> node_ok(ns2, pl, tr, Seq::empty(), j),
{
    assert forall|j: int| live(ns2, j) == live(ns0, j) by {}
    // the forest, with the exception moved to par
    assert forall|j: int|
        #[trigger] live(ns2, j) && j != par as int implies node_ok(
        ns2,
        pl,
        tr,
        Seq::empty(),
        j,
    ) by {
        assert(live(ns0, j));
        if j == curr as int {
            assert(!pl.better_spec(nkey(ns2, curr as int), nkey(ns2, par as int)));
            assert(live(ns2, par as int));
            assert(node_of(ns2, par as int).children@.contains(curr));
            assert forall|ci: int|
                0 <= ci < node_of(ns2, j).children@.len() implies {
                let cc = (#[trigger] node_of(ns2, j).children@[ci]) as int;
                &&& live(ns2, cc)
                &&& cc != j
                &&& node_of(ns2, cc).parent == Some(j as usize)
                &&& node_of(ns2, cc).children@.len() == ci
            } by {
                let cc = node_of(ns2, j).children@[ci] as int;
                assert(node_of(ns0, j).children@[ci] == node_of(ns2, j).children@[ci]);
                assert(live(ns0, cc) && node_of(ns0, cc).parent == Some(j as usize) && node_of(
                    ns0,
                    cc,
                ).children@.len() == ci && cc != j);
                assert(cc != par as int) by {
                    if cc == par as int {
                        // a two-cycle would need each node's degree below the other's
                        assert(node_of(ns0, par as int).children@.len() == ci);
                        assert(node_ok(ns0, pl, tr, Seq::empty(), par as int));
                        let k = choose|k: int|
                            0 <= k < node_of(ns0, par as int).children@.len() && (#[trigger] node_of(
                                ns0,
                                par as int,
                            ).children@[k]) == curr;
                        assert(node_of(ns0, curr as int).children@.len() == k);
                        assert(false);
                    }
                }
                assert(node_of(ns2, cc).parent == node_of(ns0, cc).parent);
                assert(node_of(ns2, cc).children == node_of(ns0, cc).children);
            }
        } else {
            assert(node_ok(ns0, pl, tr, Seq::empty(), j));
            assert(node_of(ns2, j).parent == node_of(ns0, j).parent);
            assert(node_of(ns2, j).children == node_of(ns0, j).children);
            if let Some(pj) = node_of(ns0, j).parent {
                assert(live(ns2, pj as int));
                assert(node_of(ns2, pj as int).children == node_of(ns0, pj as int).children);
                assert(!pl.better_spec(nkey(ns2, j), nkey(ns2, pj as int))) by {
                    assert(!pl.better_spec(nkey(ns0, j), nkey(ns0, pj as int)));
                    if pj == par {
                        assert(nkey(ns2, j) == nkey(ns0, j));
                    } else if pj == curr {
                        assert(!pl.better_spec(nkey(ns0, j), nkey(ns0, par as int)));
                        assert(nkey(ns2, curr as int) == nkey(ns0, par as int));
                    } else {
                        assert(nkey(ns2, j) == nkey(ns0, j));
                        assert(nkey(ns2, pj as int) == nkey(ns0, pj as int));
                    }
                }
            }
            assert forall|ci: int|
                0 <= ci < node_of(ns2, j).children@.len() implies {
                let cc = (#[trigger] node_of(ns2, j).children@[ci]) as int;
                &&& live(ns2, cc)
                &&& cc != j
                &&& node_of(ns2, cc).parent == Some(j as usize)
                &&& node_of(ns2, cc).children@.len() == ci
            } by {
                let cc = node_of(ns2, j).children@[ci] as int;
                assert(node_of(ns0, j).children@[ci] == node_of(ns2, j).children@[ci]);
                assert(live(ns0, cc) && node_of(ns0, cc).parent == Some(j as usize) && node_of(
                    ns0,
                    cc,
                ).children@.len() == ci && cc != j);
                assert(node_of(ns2, cc).parent == node_of(ns0, cc).parent);
                assert(node_of(ns2, cc).children == node_of(ns0, cc).children);
            }
        }
    }
}


/// One node's chain after a bubble-up payload swap (the swapped child).
#[verifier::rlimit(100)]
proof fn lemma_bubble_swap_chain_curr<V>(
    ns0: Seq<Option<Node<V>>>,
    ns2: Seq<Option<Node<V>>>,
    ch: Map<int, Seq<int>>,
    pl: Policy,
    par: usize,
    curr: usize,
    j: int,
)
    requires
        swap_frame(ns0, ns2, pl, par, curr),
        chain_ok(ns0, ch, pl, par as int),
        ch.dom().contains(curr as int),
        ch[curr as int] == seq![curr as int] + ch[par as int],
        ch.dom().contains(j),
        live(ns0, j),
        live(ns2, j),
        j != par as int,
        j != curr as int ==> chain_ok(ns0, ch, pl, j),
        forall|m: int|
            j != curr as int && 0 <= m < ch[j].len() && (#[trigger] ch[j][m]) == curr as int
                ==> !pl.better_spec(nkey(ns0, j), nkey(ns0, par as int)),
        j == curr as int,
    ensures
        chain_ok(ns2, ch, pl, j),
{
    let cj = ch[j];
        assert(cj == seq![curr as int] + ch[par as int]);
        assert forall|m: int| 0 <= m < cj.len() implies live(ns2, #[trigger] cj[m])
            && !pl.better_spec(nkey(ns2, j), nkey(ns2, cj[m])) by {
            assert(live(ns0, cj[m]));
            assert(nkey(ns2, j) == nkey(ns0, par as int));
            if m == 0 {
            } else {
                assert(cj[m] == ch[par as int][m - 1]);
                assert(chain_ok(ns0, ch, pl, par as int));
                assert(!pl.better_spec(nkey(ns0, par as int), nkey(ns0, cj[m])));
                if cj[m] == par as int {
                    assert(!pl.better_spec(nkey(ns2, j), nkey(ns2, cj[m]))) by {
                        assert(nkey(ns2, par as int) == nkey(ns0, curr as int));
                        assert(!pl.better_spec(
                            nkey(ns0, par as int),
                            nkey(ns0, curr as int),
                        ));
                    }
                } else if cj[m] == curr as int {
                    // the entry is the node itself: reflexivity settles it
                    assert(nkey(ns2, cj[m]) == nkey(ns2, j));
                } else {
                    assert(nkey(ns2, cj[m]) == nkey(ns0, cj[m]));
                }
            }
        }
        assert forall|m: int| 0 <= m < cj.len() - 1 implies node_of(
            ns2,
            #[trigger] cj[m],
        ).parent == Some(cj[m + 1] as usize) by {
            assert(live(ns0, cj[m]));
            assert(node_of(ns0, cj[m]).parent == Some(cj[m + 1] as usize)) by {
                if m == 0 {
                } else {
                    assert(cj[m] == ch[par as int][m - 1] && cj[m + 1] == ch[par as int][m]);
                    assert(chain_ok(ns0, ch, pl, par as int));
                }
            }
            assert(node_of(ns2, cj[m]).parent == node_of(ns0, cj[m]).parent);
        }
        assert(cj.last() == ch[par as int].last());
        assert(node_of(ns0, cj.last()).parent is None);
        assert(node_of(ns2, cj.last()).parent == node_of(ns0, cj.last()).parent);
        assert(node_of(ns2, j).parent == Some(par));
        assert(cj == seq![j] + ch[par as int]);
}

/// One node's chain after a bubble-up payload swap (an untouched node).
#[verifier::rlimit(100)]
proof fn lemma_bubble_swap_chain_other<V>(
    ns0: Seq<Option<Node<V>>>,
    ns2: Seq<Option<Node<V>>>,
    ch: Map<int, Seq<int>>,
    pl: Policy,
    par: usize,
    curr: usize,
    j: int,
)
    requires
        swap_frame(ns0, ns2, pl, par, curr),
        chain_ok(ns0, ch, pl, par as int),
        ch.dom().contains(curr as int),
        ch[curr as int] == seq![curr as int] + ch[par as int],
        ch.dom().contains(j),
        live(ns0, j),
        live(ns2, j),
        j != par as int,
        j != curr as int ==> chain_ok(ns0, ch, pl, j),
        forall|m: int|
            j != curr as int && 0 <= m < ch[j].len() && (#[trigger] ch[j][m]) == curr as int
                ==> !pl.better_spec(nkey(ns0, j), nkey(ns0, par as int)),
        j != curr as int,
    ensures
        chain_ok(ns2, ch, pl, j),
{
    let cj = ch[j];
        assert forall|m: int| 0 <= m < cj.len() implies live(ns2, #[trigger] cj[m])
            && !pl.better_spec(nkey(ns2, j), nkey(ns2, cj[m])) by {
            assert(live(ns0, cj[m]));
            assert(!pl.better_spec(nkey(ns0, j), nkey(ns0, cj[m])));
            assert(nkey(ns2, j) == nkey(ns0, j));
            if cj[m] == par as int {
                assert(nkey(ns2, par as int) == nkey(ns0, curr as int));
                assert(!pl.better_spec(nkey(ns0, j), nkey(ns0, par as int)));
                assert(!pl.better_spec(nkey(ns0, par as int), nkey(ns0, curr as int)));
            } else if cj[m] == curr as int {
                // j sits in curr's subtree, dominated by par's old key
                assert(!pl.better_spec(nkey(ns0, j), nkey(ns0, par as int)));
                assert(nkey(ns2, curr as int) == nkey(ns0, par as int));
            } else {
                assert(nkey(ns2, cj[m]) == nkey(ns0, cj[m]));
            }
        }
        assert forall|m: int| 0 <= m < cj.len() - 1 implies node_of(
            ns2,
            #[trigger] cj[m],
        ).parent == Some(cj[m + 1] as usize) by {
            assert(node_of(ns0, cj[m]).parent == Some(cj[m + 1] as usize));
            assert(live(ns0, cj[m]));
            assert(node_of(ns2, cj[m]).parent == node_of(ns0, cj[m]).parent);
        }
        assert(node_of(ns2, cj.last()).parent == node_of(ns0, cj.last()).parent);
        assert(node_of(ns2, j).parent == node_of(ns0, j).parent);
        if let Some(q) = node_of(ns0, j).parent {
            assert(cj == seq![j] + ch[q as int]);
        }
}

/// The per-node chain conditions after one bubble-up payload swap.
proof fn lemma_bubble_swap_chains<V>(
    ns0: Seq<Option<Node<V>>>,
    ns2: Seq<Option<Node<V>>>,
    ch: Map<int, Seq<int>>,
    pl: Policy,
    par: usize,
    curr: usize,
)
    requires
        swap_frame(ns0, ns2, pl, par, curr),
        forall|j: int|
            #[trigger] live(ns0, j) && j != curr as int ==> chain_ok(ns0, ch, pl, j),
        ch.dom().contains(curr as int),
        ch[curr as int] == seq![curr as int] + ch[par as int],
        forall|j: int, m: int|
            live(ns0, j) && j != curr as int && 0 <= m < ch[j].len() && (#[trigger] ch[j][m])
                == curr as int ==> !pl.better_spec(nkey(ns0, j), nkey(ns0, par as int)),
    ensures
        forall|j: int|
            #[trigger] live(ns2, j) && j != par as int ==> chain_ok(ns2, ch, pl, j),
{
    assert forall|j: int| live(ns2, j) == live(ns0, j) by {}
    assert(chain_ok(ns0, ch, pl, par as int));
    assert(par != curr);
    assert forall|j: int|
        #[trigger] live(ns2, j) && j != par as int implies chain_ok(ns2, ch, pl, j) by {
        assert(live(ns0, j));
        if j == curr as int {
            lemma_bubble_swap_chain_curr(ns0, ns2, ch, pl, par, curr, j);
        } else {
            assert(chain_ok(ns0, ch, pl, j));
            assert(ch.dom().contains(j));
            lemma_bubble_swap_chain_other(ns0, ns2, ch, pl, par, curr, j);
        }
    }
}

/// The index conditions after one bubble-up payload swap that traded
/// the two nodes' index entries along with their payloads.
#[verifier::rlimit(100)]
proof fn lemma_bubble_swap_hash<V>(
    ns0: Seq<Option<Node<V>>>,
    ns2: Seq<Option<Node<V>>>,
    pl: Policy,
    h0: Map<i64, Vec<usize>>,
    h2m: Map<i64, Vec<usize>>,
    par: usize,
    curr: usize,
)
    requires
        swap_frame(ns0, ns2, pl, par, curr),
        hash_ok(ns0, h0),
        forall|k2: i64, x: usize|
            #[trigger] hash_has(h2m, k2, x) <==> (if x == par {
                k2 == node_of(ns0, curr as int).key
            } else if x == curr {
                k2 == node_of(ns0, par as int).key
            } else {
                hash_has(h0, k2, x)
            }),
    ensures
        hash_ok(ns2, h2m),
{
    assert forall|j: int| live(ns2, j) == live(ns0, j) by {}
    assert forall|k2: i64, tt: int|
        h2m.contains_key(k2) && 0 <= tt < h2m[k2]@.len() implies {
        let j = (#[trigger] h2m[k2]@[tt]) as int;
        &&& live(ns2, j)
        &&& node_of(ns2, j).key == k2
    } by {
        let x = h2m[k2]@[tt];
        assert(h2m[k2]@.contains(x));
        assert(hash_has(h2m, k2, x));
        if x == par {
            assert(k2 == node_of(ns0, curr as int).key);
        } else if x == curr {
            assert(k2 == node_of(ns0, par as int).key);
        } else {
            assert(hash_has(h0, k2, x));
            let tt2 = choose|tt2: int|
                0 <= tt2 < h0[k2]@.len() && (#[trigger] h0[k2]@[tt2]) == x;
            assert(live(ns0, x as int) && node_of(ns0, x as int).key == k2);
            assert(node_of(ns2, x as int).key == k2);
        }
    }
    assert forall|j: int| #[trigger] live(ns2, j) implies h2m.contains_key(
        node_of(ns2, j).key,
    ) && h2m[node_of(ns2, j).key]@.contains(j as usize) by {
        let k2 = node_of(ns2, j).key;
        if j == par as int {
            assert(hash_has(h2m, node_of(ns0, curr as int).key, par));
        } else if j == curr as int {
            assert(hash_has(h2m, node_of(ns0, par as int).key, curr));
        } else {
            assert(live(ns0, j));
            assert(hash_has(h0, node_of(ns0, j).key, j as usize)) by {
                assert(h0.contains_key(node_of(ns0, j).key) && h0[node_of(
                    ns0,
                    j,
                ).key]@.contains(j as usize));
            }
            assert(hash_has(h2m, k2, j as usize)) by {
                assert(k2 == node_of(ns0, j).key);
                assert(j as usize != par && j as usize != curr);
            }
        }
    }}


/// After a bubble-up payload swap, the subtree under `par` is still
/// dominated by the key of `par`'s own parent.
#[verifier::rlimit(100)]
proof fn lemma_bubble_swap_subtree<V>(
    ns0: Seq<Option<Node<V>>>,
    ns2: Seq<Option<Node<V>>>,
    ch: Map<int, Seq<int>>,
    pl: Policy,
    tr: Seq<usize>,
    par: usize,
    curr: usize,
)
    requires
        swap_frame(ns0, ns2, pl, par, curr),
        forall|j: int|
            #[trigger] live(ns0, j) && j != curr as int ==> chain_ok(ns0, ch, pl, j),
        ch[curr as int] == seq![curr as int] + ch[par as int],
        node_of(ns0, par as int).parent matches Some(pq) ==> pq != par && pq != curr && live(
            ns0,
            pq as int,
        ) && chain_ok(ns0, ch, pl, pq as int),
    ensures
        forall|j: int, m: int|
            live(ns2, j) && j != par as int && 0 <= m < ch[j].len() && (#[trigger] ch[j][m])
                == par as int ==> (node_of(ns2, par as int).parent matches Some(pq)
                ==> !pl.better_spec(nkey(ns2, j), nkey(ns2, pq as int))),
{
    assert forall|j: int| live(ns2, j) == live(ns0, j) by {}
    assert(chain_ok(ns0, ch, pl, par as int));
    // the subtree under par stays dominated by par's parent
    assert forall|j: int, m: int|
        live(ns2, j) && j != par as int && 0 <= m < ch[j].len() && (#[trigger] ch[j][m])
            == par as int implies (node_of(ns2, par as int).parent matches Some(pq)
            ==> !pl.better_spec(nkey(ns2, j), nkey(ns2, pq as int))) by {
        if let Some(pq) = node_of(ns2, par as int).parent {
            assert(node_of(ns0, par as int).parent == Some(pq));
            assert(pq != par && pq != curr);
            assert(nkey(ns2, pq as int) == nkey(ns0, pq as int));
            assert(chain_ok(ns0, ch, pl, par as int));
            assert(ch[par as int].len() >= 2 && ch[par as int][1] == pq as int) by {
                assert(ch[par as int] == seq![par as int] + ch[pq as int]);
                assert(chain_ok(ns0, ch, pl, pq as int));
            }
            if j == curr as int {
                assert(nkey(ns2, j) == nkey(ns0, par as int));
                assert(!pl.better_spec(nkey(ns0, par as int), nkey(ns0, pq as int)));
            } else {
                assert(chain_ok(ns0, ch, pl, j));
                assert(m + 1 < ch[j].len()) by {
                    assert(node_of(ns0, ch[j].last()).parent is None);
                    if m == ch[j].len() - 1 {
                        assert(ch[j].last() == par as int);
                        assert(false);
                    }
                }
                assert(node_of(ns0, ch[j][m]).parent == Some(ch[j][m + 1] as usize));
                assert(ch[j][m + 1] == pq as int);
                assert(!pl.better_spec(nkey(ns0, j), nkey(ns0, pq as int)));
                assert(nkey(ns2, j) == nkey(ns0, j));
            }
        }
    }

}

/// After a bubble-up payload swap, the tracked top still dominates
/// every live node except `par`, which now holds the decreased key.
#[verifier::rlimit(100)]
proof fn lemma_bubble_swap_top<V>(
    ns0: Seq<Option<Node<V>>>,
    ns2: Seq<Option<Node<V>>>,
    pl: Policy,
    par: usize,
    curr: usize,
    t: usize,
)
    requires
        swap_frame(ns0, ns2, pl, par, curr),
        live(ns0, t as int),
        t != curr,
        forall|j: int|
            #[trigger] live(ns0, j) && j != curr as int ==> !pl.better_spec(
                nkey(ns0, j),
                nkey(ns0, t as int),
            ),
    ensures
        forall|j: int|
            #[trigger] live(ns2, j) && j != par as int ==> !pl.better_spec(
                nkey(ns2, j),
                nkey(ns2, t as int),
            ),
{
    assert forall|j: int| live(ns2, j) == live(ns0, j) by {}
    // the top still dominates everything but par
    assert forall|j: int|
        #[trigger] live(ns2, j) && j != par as int implies !pl.better_spec(
        nkey(ns2, j),
        nkey(ns2, t as int),
    ) by {
        let kt2 = nkey(ns2, t as int);
        assert(!pl.better_spec(nkey(ns0, t as int), nkey(ns0, t as int)));
        if t == par {
            assert(kt2 == nkey(ns0, curr as int));
            if j == curr as int {
                assert(nkey(ns2, j) == nkey(ns0, par as int));
                assert(!pl.better_spec(nkey(ns0, par as int), nkey(ns0, curr as int)));
            } else {
                assert(!pl.better_spec(nkey(ns0, j), nkey(ns0, t as int)));
                assert(nkey(ns2, j) == nkey(ns0, j));
                assert(!pl.better_spec(nkey(ns0, par as int), nkey(ns0, curr as int)));
            }
        } else {
            assert(kt2 == nkey(ns0, t as int));
            if j == curr as int {
                assert(nkey(ns2, j) == nkey(ns0, par as int));
                assert(!pl.better_spec(nkey(ns0, par as int), nkey(ns0, t as int)));
            } else {
                assert(nkey(ns2, j) == nkey(ns0, j));
                assert(!pl.better_spec(nkey(ns0, j), nkey(ns0, t as int)));
            }
        }
    }
}

/// One bubble-up step: after the payloads of `curr` and its parent
/// `par` trade places (and the index follows them), the decreased key
/// sits at `par`, which becomes the new bubbling exception.
#[verifier::rlimit(100)]
proof fn lemma_bubble_swap_step<V>(
    ns0: Seq<Option<Node<V>>>,
    ns2: Seq<Option<Node<V>>>,
    ch: Map<int, Seq<int>>,
    pl: Policy,
    h1: BinomialHeap<V>,
    h2: BinomialHeap<V>,
    par: usize,
    curr: usize,
)
    requires
        bubbling_ok(h1, curr),
        h1.nodes@ == ns0,
        h1.chains@ == ch,
        h1.policy == pl,
        h2.policy == pl,
        h2.chains@ == ch,
        h2.trees == h1.trees,
        h2.top == h1.top,
        h2.total == h1.total,
        h2.nodes@ == ns2,
        ns0.len() <= usize::MAX,
        node_of(ns0, curr as int).parent == Some(par),
        !pl.better_spec(nkey(ns0, par as int), nkey(ns0, curr as int)),
        ns2.len() == ns0.len(),
        forall|j: int|
            0 <= j < ns0.len() && j != par as int && j != curr as int ==> ns2[j] == ns0[j],
        live(ns2, par as int),
        live(ns2, curr as int),
        node_of(ns2, par as int).parent == node_of(ns0, par as int).parent,
        node_of(ns2, par as int).children == node_of(ns0, par as int).children,
        node_of(ns2, par as int).key == node_of(ns0, curr as int).key,
        node_of(ns2, curr as int).parent == node_of(ns0, curr as int).parent,
        node_of(ns2, curr as int).children == node_of(ns0, curr as int).children,
        node_of(ns2, curr as int).key == node_of(ns0, par as int).key,
        bag(ns2) == bag(ns0),
        forall|k2: i64, x: usize|
            #[trigger] hash_has(h2.hash@, k2, x) <==> (if x == par {
                k2 == node_of(ns0, curr as int).key
            } else if x == curr {
                k2 == node_of(ns0, par as int).key
            } else {
                hash_has(h1.hash@, k2, x)
            }),
    ensures
        bubbling_ok(h2, par),
{
    reveal(bubbling_ok);
    let tr = h1.trees@;
    let t = h1.top->Some_0;
    assert(chain_ok(ns0, ch, pl, par as int));
    assert(ch[curr as int] == seq![curr as int] + ch[par as int]);
    assert(par != curr);
    assert(t != curr) by {
        assert(tr.contains(t));
        let m = choose|m: int| 0 <= m < tr.len() && (#[trigger] tr[m]) == t;
        assert(node_of(ns0, t as int).parent is None);
    }
    assert forall|j: int| live(ns2, j) == live(ns0, j) by {}
    assert(swap_frame(ns0, ns2, pl, par, curr));
    assert forall|j: int|
        #[trigger] live(ns0, j) && node_of(ns0, j).parent == Some(curr) implies !pl.better_spec(
        nkey(ns0, j),
        nkey(ns0, par as int),
    ) by {
        assert(chain_ok(ns0, ch, pl, j));
        assert(ch[j] == seq![j] + ch[curr as int]);
        assert(ch[j][1] == curr as int);
    }
    lemma_bubble_swap_forest(ns0, ns2, pl, tr, par, curr);
    // par's own structural conditions
    assert(match node_of(ns2, par as int).parent {
        Some(p) => live(ns2, p as int) && node_of(ns2, p as int).children@.contains(par)
            && p != par,
        None => in_forest(h2.trees@, Seq::empty(), par as int),
    }) by {
        assert(node_ok(ns0, pl, tr, Seq::empty(), par as int));
        if let Some(p) = node_of(ns0, par as int).parent {
            assert(node_of(ns2, p as int).children == node_of(ns0, p as int).children);
            assert(p != par) by {
                if p == par {
                    assert(node_of(ns0, par as int).children@.contains(par));
                    let ci = choose|ci: int|
                        0 <= ci < node_of(ns0, par as int).children@.len() && (#[trigger] node_of(
                            ns0,
                            par as int,
                        ).children@[ci]) == par;
                    assert(false);
                }
            }
        }
    }
    assert forall|ci: int|
        0 <= ci < node_of(ns2, par as int).children@.len() implies {
        let c = (#[trigger] node_of(ns2, par as int).children@[ci]) as int;
        &&& live(ns2, c)
        &&& c != par as int
        &&& node_of(ns2, c).parent == Some(par)
        &&& node_of(ns2, c).children@.len() == ci
    } by {
        assert(node_ok(ns0, pl, tr, Seq::empty(), par as int));
        let c = node_of(ns2, par as int).children@[ci] as int;
        assert(node_of(ns0, par as int).children@[ci] == node_of(ns2, par as int).children@[ci]);
        assert(live(ns0, c) && node_of(ns0, c).parent == Some(par) && node_of(
            ns0,
            c,
        ).children@.len() == ci && c != par as int);
        assert(node_of(ns2, c).parent == node_of(ns0, c).parent);
        assert(node_of(ns2, c).children == node_of(ns0, c).children);
    }
    lemma_bubble_swap_chains(ns0, ns2, ch, pl, par, curr);
    // par's chain shape
    assert(ch[par as int][0] == par as int);
    assert forall|m: int| 0 <= m < ch[par as int].len() implies live(
        ns2,
        #[trigger] ch[par as int][m],
    ) by {
        assert(live(ns0, ch[par as int][m]));
    }
    assert forall|m: int| 0 <= m < ch[par as int].len() - 1 implies node_of(
        ns2,
        #[trigger] ch[par as int][m],
    ).parent == Some(ch[par as int][m + 1] as usize) by {
        assert(node_of(ns0, ch[par as int][m]).parent == Some(ch[par as int][m + 1] as usize));
        assert(live(ns0, ch[par as int][m]));
        assert(node_of(ns2, ch[par as int][m]).parent == node_of(ns0, ch[par as int][m]).parent);
    }
    assert(node_of(ns2, ch[par as int].last()).parent == node_of(
        ns0,
        ch[par as int].last(),
    ).parent) by {
        assert(live(ns0, ch[par as int].last()));
    }

    assert(node_of(ns0, par as int).parent matches Some(pq2) ==> pq2 != par && pq2 != curr
        && live(ns0, pq2 as int) && chain_ok(ns0, ch, pl, pq2 as int)) by {
        if let Some(pq2) = node_of(ns0, par as int).parent {
            assert(node_ok(ns0, pl, tr, Seq::empty(), par as int));
            assert(live(ns0, pq2 as int));
            assert(pq2 != curr) by {
                if pq2 == curr {
                    assert(node_of(ns0, curr as int).children@.contains(par));
                    let ci = choose|ci: int|
                        0 <= ci < node_of(ns0, curr as int).children@.len() && (#[trigger] node_of(
                            ns0,
                            curr as int,
                        ).children@[ci]) == par;
                    assert(node_of(ns0, par as int).children@.len() == ci);
                    assert(node_of(ns0, par as int).children@.contains(curr));
                    let k = choose|k: int|
                        0 <= k < node_of(ns0, par as int).children@.len() && (#[trigger] node_of(
                            ns0,
                            par as int,
                        ).children@[k]) == curr;
                    assert(node_of(ns0, curr as int).children@.len() == k);
                    assert(false);
                }
            }
            assert(pq2 != par) by {
                if pq2 == par {
                    assert(node_of(ns0, par as int).children@.contains(par));
                    let ci2 = choose|ci2: int|
                        0 <= ci2 < node_of(ns0, par as int).children@.len() && (#[trigger] node_of(
                            ns0,
                            par as int,
                        ).children@[ci2]) == par;
                    assert(false);
                }
            }
            assert(chain_ok(ns0, ch, pl, pq2 as int));
        }
    }
    lemma_bubble_swap_subtree(ns0, ns2, ch, pl, tr, par, curr);
    lemma_bubble_swap_top(ns0, ns2, pl, par, curr, t);
    assert(live(ns2, t as int) && h2.trees@.contains(t));
    lemma_bubble_swap_hash(ns0, ns2, pl, h1.hash@, h2.hash@, par, curr);
}


/// When the bubbling payload reaches a slot whose parent is strictly
/// better, heap order is fully restored and the heap is well-formed.
#[verifier::rlimit(100)]
proof fn lemma_bubble_stop_better<V>(h: BinomialHeap<V>, curr: usize, par: usize)
    requires
        bubbling_ok(h, curr),
        node_of(h.nodes@, curr as int).parent == Some(par),
        h.policy.better_spec(nkey(h.nodes@, par as int), nkey(h.nodes@, curr as int)),
    ensures
        h.well_formed(),
{
    reveal(bubbling_ok);
    let ns = h.nodes@;
    let pl = h.policy;
    let ch = h.chains@;
    let t = h.top->Some_0;
    assert(chain_ok(ns, ch, pl, par as int));
    assert(ch[curr as int] == seq![curr as int] + ch[par as int]);
    assert forall|j: int| #[trigger] live(ns, j) implies node_ok(
        ns,
        pl,
        h.trees@,
        Seq::empty(),
        j,
    ) && chain_ok(ns, ch, pl, j) && !pl.better_spec(nkey(ns, j), nkey(ns, t as int)) by {
        if j == curr as int {
            assert forall|m: int| 0 <= m < ch[j].len() implies !pl.better_spec(
                nkey(ns, j),
                nkey(ns, #[trigger] ch[j][m]),
            ) by {
                if m == 0 {
                } else {
                    assert(ch[j][m] == ch[par as int][m - 1]);
                    assert(!pl.better_spec(nkey(ns, par as int), nkey(ns, ch[par as int][m - 1])));
                }
            }
            assert(!pl.better_spec(nkey(ns, par as int), nkey(ns, t as int)));
        }
    }
}

/// When the bubbling payload sits at a root and the top was refreshed
/// against it, the heap is well-formed again.
#[verifier::rlimit(100)]
proof fn lemma_bubble_stop_root<V>(h1: BinomialHeap<V>, h2: BinomialHeap<V>, curr: usize)
    requires
        bubbling_ok(h1, curr),
        node_of(h1.nodes@, curr as int).parent is None,
        h2 == (BinomialHeap { top: h2.top, ..h1 }),
        h2.top matches Some(t2) && (match h1.top {
            None => t2 == curr,
            Some(t) => t2 == if h1.policy.better_spec(
                nkey(h1.nodes@, curr as int),
                nkey(h1.nodes@, t as int),
            ) {
                curr
            } else {
                t
            },
        }),
    ensures
        h2.well_formed(),
{
    reveal(bubbling_ok);
    let ns = h1.nodes@;
    let pl = h1.policy;
    let ch = h1.chains@;
    let t2 = h2.top->Some_0;
    let t0 = h1.top->Some_0;
    assert(ch[curr as int] == seq![curr as int]);
    assert forall|j: int| #[trigger] live(ns, j) implies !pl.better_spec(
        nkey(ns, j),
        nkey(ns, t2 as int),
    ) by {
        if j != curr as int {
            assert(!pl.better_spec(nkey(ns, j), nkey(ns, t0 as int)));
        }
    }
    assert(h2.trees@.contains(t2)) by {
        if t2 != curr {
            assert(h1.trees@.contains(t0));
        } else {
            assert(in_forest(h1.trees@, Seq::empty(), curr as int));
        }
    }
    assert forall|j: int| #[trigger] live(ns, j) implies node_ok(
        ns,
        pl,
        h2.trees@,
        Seq::empty(),
        j,
    ) && chain_ok(ns, ch, pl, j) by {
        if j == curr as int {
            assert forall|m: int| 0 <= m < ch[j].len() implies !pl.better_spec(
                nkey(ns, j),
                nkey(ns, #[trigger] ch[j][m]),
            ) by {
                assert(ch[j][m] == j);
            }
        }
    }
}


/// When the two swapped payloads carry the same key, the untouched
/// index already relates to the arena exactly as if the two nodes'
/// entries had been traded.
#[verifier::rlimit(100)]
proof fn lemma_bubble_same_key_hash<V>(
    ns0: Seq<Option<Node<V>>>,
    h0: Map<i64, Vec<usize>>,
    par: usize,
    curr: usize,
    k: i64,
)
    requires
        hash_ok(ns0, h0),
        live(ns0, par as int),
        live(ns0, curr as int),
        node_of(ns0, par as int).key == k,
        node_of(ns0, curr as int).key == k,
    ensures
        forall|k2: i64, x: usize|
            #[trigger] hash_has(h0, k2, x) <==> (if x == par {
                k2 == node_of(ns0, curr as int).key
            } else if x == curr {
                k2 == node_of(ns0, par as int).key
            } else {
                hash_has(h0, k2, x)
            }),
{
    assert forall|k2: i64, x: usize|
        #[trigger] hash_has(h0, k2, x) <==> (if x == par {
            k2 == node_of(ns0, curr as int).key
        } else if x == curr {
            k2 == node_of(ns0, par as int).key
        } else {
            hash_has(h0, k2, x)
        }) by {
        if hash_has(h0, k2, x) && (x == par || x == curr) {
            let tt = choose|tt: int|
                0 <= tt < h0[k2]@.len() && (#[trigger] h0[k2]@[tt]) == x;
            assert(live(ns0, x as int) && node_of(ns0, x as int).key == k2);
        }
        if x == par && k2 == k {
            assert(hash_has(h0, k, par)) by {
                assert(h0.contains_key(k));
            }
        }
        if x == curr && k2 == k {
            assert(hash_has(h0, k, curr)) by {
                assert(h0.contains_key(k));
            }
        }
    }
}

impl<V> BinomialHeap<V> {
    /// Swap the decreased payload in slot `curr` upward across parent
    /// links until its parent is strictly better or it reaches a root,
    /// then refresh the tracked top.  Tree shape never changes: only
    /// the `(key, value)` payloads move, and the index follows them.
    #[verifier::rlimit(100)]
    #[verifier::loop_isolation(false)]
    fn heapify_button_up(&mut self, modified: usize)
        requires
            bubbling_ok(*old(self), modified),
        ensures
            final(self).well_formed(),
            final(self).policy == old(self).policy,
            final(self).total == old(self).total,
            final(self).trees == old(self).trees,
            bag(final(self).nodes@) == bag(old(self).nodes@),
            final(self).nodes@.len() == old(self).nodes@.len(),
            forall|j: int| live(final(self).nodes@, j) == live(old(self).nodes@, j),
            forall|j: int|
                live(old(self).nodes@, j) ==> (#[trigger] node_of(final(self).nodes@, j)).parent
                    == node_of(old(self).nodes@, j).parent && node_of(
                    final(self).nodes@,
                    j,
                ).children == node_of(old(self).nodes@, j).children,
    {
        let ghost pl = self.policy;
        let nl = self.nodes.len();
        let mut curr = modified;
        let mut go = true;
        while go
            invariant
                self.policy == pl,
                self.total == old(self).total,
                self.trees == old(self).trees,
                self.chains == old(self).chains,
                self.nodes@.len() == nl,
                self.nodes@.len() == old(self).nodes@.len(),
                forall|j: int| live(self.nodes@, j) == live(old(self).nodes@, j),
                forall|j: int|
                    live(old(self).nodes@, j) ==> (#[trigger] node_of(self.nodes@, j)).parent
                        == node_of(old(self).nodes@, j).parent && node_of(
                        self.nodes@,
                        j,
                    ).children == node_of(old(self).nodes@, j).children,
                bag(self.nodes@) == bag(old(self).nodes@),
                go ==> bubbling_ok(*self, curr),
                !go ==> self.well_formed(),
            decreases self.chains@[curr as int].len(), (if go {
                1int
            } else {
                0int
            }),
        {
            proof {
                assert(live(self.nodes@, curr as int) && (self.top matches Some(t) ==> live(
                    self.nodes@,
                    t as int,
                ))) by {
                    reveal(bubbling_ok);
                }
            }
            let ghost ns0 = self.nodes@;
            let ghost ch = self.chains@;
            let parent_opt = arena_get(&self.nodes, curr).parent;
            match parent_opt {
                None => {
                    let ghost h1pre = *self;
                    self.update_top(curr);
                    proof {
                        lemma_bubble_stop_root(h1pre, *self, curr);
                    }
                    go = false;
                },
                Some(par) => {
                    proof {
                        assert(live(self.nodes@, par as int) && par != curr) by {
                            reveal(bubbling_ok);
                        }
                    }
                    if self.is_heigher(par, curr) {
                        proof {
                            lemma_bubble_stop_better(*self, curr, par);
                        }
                        go = false;
                    } else {
                        let ghost h1 = *self;
                        proof {
                            assert(hash_ok(ns0, self.hash@)) by {
                                reveal(bubbling_ok);
                            }
                            assert(ns0.len() == nl);
                        }
                        let ka = arena_get(&self.nodes, par).key;
                        let kc = arena_get(&self.nodes, curr).key;
                        swap_payload(&mut self.nodes, par, curr);
                        if ka != kc {
                            self.hash_swap_entries(par, curr, ka, kc, Ghost(ns0));
                        }
                        proof {
                            if ka == kc {
                                lemma_bubble_same_key_hash(ns0, self.hash@, par, curr, ka);
                            }
                            lemma_bubble_swap_step(ns0, self.nodes@, ch, pl, h1, *self, par, curr);
                            assert(bubbling_ok(*self, par));
                            assert(self.chains@[par as int].len() < self.chains@[curr as int].len())
                                by {
                                reveal(bubbling_ok);
                                assert(ch[curr as int] == seq![curr as int] + ch[par as int]);
                            }
                            // the swap moved payloads only: every link survives
                            let ns2 = self.nodes@;
                            assert forall|j: int| live(ns2, j) == live(
                                old(self).nodes@,
                                j,
                            ) by {
                                assert(live(ns2, j) == live(ns0, j));
                            }
                            assert forall|j: int|
                                live(old(self).nodes@, j) implies (#[trigger] node_of(
                                ns2,
                                j,
                            )).parent == node_of(old(self).nodes@, j).parent && node_of(
                                ns2,
                                j,
                            ).children == node_of(old(self).nodes@, j).children by {
                                assert(live(ns0, j));
                                assert(node_of(ns2, j).parent == node_of(ns0, j).parent
                                    && node_of(ns2, j).children == node_of(ns0, j).children);
                            }
                        }
                        curr = par;
                    }
                },
            }
        }
    }

    /// After the payloads of `par` (old key `ka`) and `curr` (old key
    /// `kc`) traded places, trade their index entries as well.
    #[verifier::rlimit(100)]
    fn hash_swap_entries(
        &mut self,
        par: usize,
        curr: usize,
        ka: i64,
        kc: i64,
        Ghost(ns0): Ghost<Seq<Option<Node<V>>>>,
    )
        requires
            ka != kc,
            par != curr,
            hash_ok(ns0, old(self).hash@),
            live(ns0, par as int),
            live(ns0, curr as int),
            node_of(ns0, par as int).key == ka,
            node_of(ns0, curr as int).key == kc,
        ensures
            *final(self) == (BinomialHeap { hash: final(self).hash, ..*old(self) }),
            forall|k2: i64, x: usize|
                #[trigger] hash_has(final(self).hash@, k2, x) <==> (if x == par {
                    k2 == kc
                } else if x == curr {
                    k2 == ka
                } else {
                    hash_has(old(self).hash@, k2, x)
                }),
    {
        let ghost h0 = self.hash@;
        proof {
            assert(h0.contains_key(ka) && h0[ka]@.contains(par));
            assert(h0.contains_key(kc) && h0[kc]@.contains(curr));
        }
        let b1 = self.hash.remove(&ka).unwrap();
        let mut f1 = remove_id(&b1, par);
        let ghost f1pre = f1@;
        f1.push(curr);
        self.hash.insert(ka, f1);
        let b2 = self.hash.remove(&kc).unwrap();
        let mut f2 = remove_id(&b2, curr);
        let ghost f2pre = f2@;
        f2.push(par);
        self.hash.insert(kc, f2);
        proof {
            let h = self.hash@;
            let ghost f1v = f1@;
            let ghost f2v = f2@;
            assert(h == h0.insert(ka, f1).remove(kc).insert(kc, f2));
            assert forall|k2: i64, x: usize| #[trigger] hash_has(h, k2, x) implies (if x == par {
                k2 == kc
            } else if x == curr {
                k2 == ka
            } else {
                hash_has(h0, k2, x)
            }) by {
                if k2 == kc {
                    assert(h[kc] == f2);
                    assert(f2v == f2pre.push(par));
                    if x != par {
                        let w = choose|w: int| 0 <= w < f2v.len() && (#[trigger] f2v[w]) == x;
                        assert(w < f2pre.len());
                        assert(f2pre[w] == x);
                        assert(f2pre.contains(x));
                        assert(b2@.contains(x) && x != curr);
                        assert(b2 == h0[kc]);
                        assert(hash_has(h0, k2, x));
                    }
                } else if k2 == ka {
                    assert(h[ka] == f1);
                    assert(f1v == f1pre.push(curr));
                    if x != curr {
                        let w = choose|w: int| 0 <= w < f1v.len() && (#[trigger] f1v[w]) == x;
                        assert(w < f1pre.len());
                        assert(f1pre[w] == x);
                        assert(f1pre.contains(x));
                        assert(b1@.contains(x) && x != par);
                        assert(b1 == h0[ka]);
                        assert(hash_has(h0, k2, x));
                    }
                } else {
                    assert(h[k2] == h0[k2]);
                    assert(hash_has(h0, k2, x));
                    assert(x != par) by {
                        if x == par {
                            let tt = choose|tt: int|
                                0 <= tt < h0[k2]@.len() && (#[trigger] h0[k2]@[tt]) == x;
                            assert(node_of(ns0, par as int).key == k2);
                        }
                    }
                    assert(x != curr) by {
                        if x == curr {
                            let tt = choose|tt: int|
                                0 <= tt < h0[k2]@.len() && (#[trigger] h0[k2]@[tt]) == x;
                            assert(node_of(ns0, curr as int).key == k2);
                        }
                    }
                }
            }
            assert forall|k2: i64, x: usize| (if x == par {
                k2 == kc
            } else if x == curr {
                k2 == ka
            } else {
                hash_has(h0, k2, x)
            }) implies #[trigger] hash_has(h, k2, x) by {
                if x == par {
                    if k2 == kc {
                        assert(f2v == f2pre.push(par));
                        assert(f2v[f2pre.len() as int] == par);
                        assert(f2v.contains(par));
                        assert(h.contains_key(kc) && h[kc] == f2);
                    }
                } else if x == curr {
                    if k2 == ka {
                        assert(f1v == f1pre.push(curr));
                        assert(f1v[f1pre.len() as int] == curr);
                        assert(f1v.contains(curr));
                        assert(h.contains_key(ka) && h[ka] == f1);
                    }
                } else {
                    if hash_has(h0, k2, x) {
                        if k2 == ka {
                            assert(b1 == h0[ka]);
                            assert(b1@.contains(x));
                            assert(f1pre.contains(x));
                            let w = choose|w: int|
                                0 <= w < f1pre.len() && (#[trigger] f1pre[w]) == x;
                            assert(f1v == f1pre.push(curr));
                            assert(f1v[w] == x);
                            assert(f1v.contains(x));
                            assert(h.contains_key(ka) && h[ka] == f1);
                        } else if k2 == kc {
                            assert(b2 == h0[kc]);
                            assert(b2@.contains(x));
                            assert(f2pre.contains(x));
                            let w = choose|w: int|
                                0 <= w < f2pre.len() && (#[trigger] f2pre[w]) == x;
                            assert(f2v == f2pre.push(par));
                            assert(f2v[w] == x);
                            assert(f2v.contains(x));
                            assert(h.contains_key(kc) && h[kc] == f2);
                        } else {
                            assert(h[k2] == h0[k2]);
                        }
                    }
                }
            }
        }
    }
}


impl<V: Eq> BinomialHeap<V> {
    /// Find the arena slot of a live node holding exactly the pair
    /// `(key, val)`, by scanning the index bucket of `key`.
    #[verifier::rlimit(100)]
    #[verifier::loop_isolation(false)]
    fn find_pair(&self, key: &i64, val: &V) -> (r: Option<usize>)
        requires
            self.well_formed(),
            vstd::laws_eq::obeys_concrete_eq::<V>(),
        ensures
            match r {
                Some(id) => live(self.nodes@, id as int) && node_of(self.nodes@, id as int).key
                    == *key && node_of(self.nodes@, id as int).val == *val,
                None => !self@.contains((*key as int, *val)),
            },
    {
        proof {
            reveal(vstd::laws_eq::obeys_concrete_eq);
        }
        let nl = self.nodes.len();
        let ghost ns = self.nodes@;
        let bucket = match self.hash.get(key) {
            None => {
                proof {
                    if bag(ns).contains((*key as int, *val)) {
                        lemma_bag_exists(ns, (*key as int, *val));
                        let j = choose|j: int| live(ns, j) && npair(ns, j) == (*key as int, *val);
                        assert(node_of(ns, j).key == *key);
                        assert(self.hash@.contains_key(*key));
                    }
                }
                return None;
            },
            Some(b) => b,
        };
        let ghost bkt = bucket@;
        proof {
            assert(self.hash@.contains_key(*key) && self.hash@[*key] == *bucket);
        }
        let mut k: usize = 0;
        while k < bucket.len()
            invariant
                k <= bkt.len(),
                bucket@ == bkt,
                forall|m: int|
                    0 <= m < k ==> node_of(ns, (#[trigger] bkt[m]) as int).val != *val,
            decreases bkt.len() - k,
        {
            let id = bucket[k];
            proof {
                assert(live(ns, id as int) && node_of(ns, id as int).key == *key);
            }
            let n = arena_get(&self.nodes, id);
            if n.val == *val {
                return Some(id);
            }
            k = k + 1;
        }
        proof {
            if bag(ns).contains((*key as int, *val)) {
                lemma_bag_exists(ns, (*key as int, *val));
                let j = choose|j: int| live(ns, j) && npair(ns, j) == (*key as int, *val);
                assert(live(ns, j));
                assert(node_of(ns, j).key == *key);
                assert(node_of(ns, j).val == *val);
                assert(self.hash@.contains_key(node_of(ns, j).key) && self.hash@[node_of(
                    ns,
                    j,
                ).key]@.contains(j as usize));
                assert(bkt.contains(j as usize));
                assert(ns.len() == nl);
                let m = choose|m: int| 0 <= m < bkt.len() && (#[trigger] bkt[m]) == j as usize;
                assert(bkt[m] as int == j);
                assert(node_of(ns, bkt[m] as int).val != *val);
                assert(false);
            }
        }
        None
    }
}

impl<V> BinomialHeap<V> {
    /// Move slot `id`'s index entry from the bucket of its current key
    /// to the bucket of `new_key` (only the matched slot moves).
    #[verifier::rlimit(100)]
    fn modify_hash_mapping(&mut self, id: usize, new_key: i64)
        requires
            live(old(self).nodes@, id as int),
            hash_ok(old(self).nodes@, old(self).hash@),
        ensures
            *final(self) == (BinomialHeap { hash: final(self).hash, ..*old(self) }),
            forall|k2: i64, x: usize|
                #[trigger] hash_has(final(self).hash@, k2, x) <==> (if x == id {
                    k2 == new_key
                } else {
                    hash_has(old(self).hash@, k2, x)
                }),
    {
        let ghost h0 = self.hash@;
        let ghost ns = self.nodes@;
        let old_key = arena_get(&self.nodes, id).key;
        proof {
            assert(h0.contains_key(old_key) && h0[old_key]@.contains(id));
        }
        let bucket = self.hash.remove(&old_key).unwrap();
        let filtered = remove_id(&bucket, id);
        if filtered.len() > 0 {
            self.hash.insert(old_key, filtered);
        }
        let ghost h1 = self.hash@;
        proof {
            assert forall|k2: i64, x: usize|
                #[trigger] hash_has(h1, k2, x) <==> (hash_has(h0, k2, x) && !(k2 == old_key && x
                    == id)) by {
                if k2 == old_key {
                    if hash_has(h1, k2, x) {
                        assert(h1[k2] == filtered);
                        assert(bucket@.contains(x) && x != id);
                        assert(bucket == h0[old_key]);
                    }
                    if hash_has(h0, k2, x) && x != id {
                        assert(h0[old_key]@.contains(x));
                        assert(filtered@.contains(x));
                        assert(filtered@.len() > 0) by {
                            let w = choose|w: int|
                                0 <= w < filtered@.len() && (#[trigger] filtered@[w]) == x;
                        }
                        assert(h1.contains_key(k2) && h1[k2] == filtered);
                    }
                } else {
                    if hash_has(h1, k2, x) {
                        assert(h1[k2] == h0[k2]);
                    }
                    if hash_has(h0, k2, x) {
                        assert(h1.contains_key(k2) && h1[k2] == h0[k2]);
                    }
                }
            }
        }
        self.hash_insert(new_key, id);
        proof {
            let h2 = self.hash@;
            assert forall|k2: i64, x: usize|
                #[trigger] hash_has(h2, k2, x) <==> (if x == id {
                    k2 == new_key
                } else {
                    hash_has(h0, k2, x)
                }) by {
                if k2 == new_key {
                    assert(h2[k2]@ == if h1.contains_key(new_key) {
                        h1[new_key]@.push(id)
                    } else {
                        seq![id]
                    });
                    if hash_has(h2, k2, x) {
                        if x != id {
                            let w = choose|w: int|
                                0 <= w < h2[k2]@.len() && (#[trigger] h2[k2]@[w]) == x;
                            assert(h1.contains_key(new_key) && h1[new_key]@[w] == x);
                            assert(hash_has(h1, k2, x));
                        }
                    }
                    if x == id {
                        assert(h2[k2]@.last() == id);
                        assert(h2[k2]@.contains(id));
                        assert(hash_has(h2, k2, x));
                    } else if hash_has(h0, k2, x) {
                        assert(hash_has(h1, k2, x));
                        let w = choose|w: int|
                            0 <= w < h1[k2]@.len() && (#[trigger] h1[k2]@[w]) == x;
                        assert(h2[k2]@[w] == x);
                        assert(hash_has(h2, k2, x));
                    }
                } else {
                    assert(h2.contains_key(k2) ==> h2[k2] == h1[k2]) by {
                        if h2.contains_key(k2) {
                            assert(h2.dom() == h1.dom().insert(new_key));
                        }
                    }
                    if hash_has(h2, k2, x) {
                        assert(hash_has(h1, k2, x));
                        assert(x != id) by {
                            if x == id {
                                assert(hash_has(h0, k2, id) && k2 != old_key);
                                let w = choose|w: int|
                                    0 <= w < h0[k2]@.len() && (#[trigger] h0[k2]@[w]) == id;
                                assert(node_of(ns, id as int).key == k2);
                            }
                        }
                    }
                    if x != id && hash_has(h0, k2, x) {
                        assert(hash_has(h1, k2, x));
                        assert(h2.contains_key(k2)) by {
                            assert(h2.dom() == h1.dom().insert(new_key));
                        }
                        assert(hash_has(h2, k2, x));
                    }
                }
            }
        }
    }
}


impl<V: Eq> BinomialHeap<V> {
    /// Re-key the entry `(old_key, val)` to `new_key`, which must be at
    /// least as good under the heap's policy (a decrease toward higher
    /// priority).  The node's key is lowered in place, its index entry
    /// moves to the new key's bucket, and the payload bubbles upward
    /// until heap order is restored.  `Err` exactly when no entry
    /// matches `(old_key, val)`.
    ///
    /// The lookup compares values with `==`, so the contract asks that
    /// `V`'s equality agree with mathematical equality
    /// (`vstd::laws_eq::obeys_concrete_eq`).  vstd proves that law for
    /// the primitive integer and character types; for a value type it
    /// does not cover — `String`, for instance, whose `==` vstd relates
    /// only to the character view — a verified caller has to supply the
    /// law itself.  The precondition binds verified callers only; the
    /// operation runs the same either way.
    #[verifier::rlimit(100)]
    pub fn modify_key(&mut self, old_key: &i64, val: &V, new_key: i64) -> (r: HeapResult)
        requires
            old(self).well_formed(),
            vstd::laws_eq::obeys_concrete_eq::<V>(),
            new_key == *old_key || old(self).policy_spec().better_spec(
                new_key as int,
                *old_key as int,
            ),
        ensures
            final(self).well_formed(),
            final(self).policy_spec() == old(self).policy_spec(),
            (r is Err) <==> !old(self)@.contains((*old_key as int, *val)),
            r is Err ==> *final(self) == *old(self),
            r is Ok ==> final(self)@ == old(self)@.remove((*old_key as int, *val)).insert(
                (new_key as int, *val),
            ),
    {
        let ghost pl = self.policy;
        let ghost ns0 = self.nodes@;
        let nl = self.nodes.len();
        let id = match self.find_pair(old_key, val) {
            None => {
                return Err(());
            },
            Some(id) => id,
        };
        proof {
            lemma_bag_contains(ns0, id as int);
            assert(npair(ns0, id as int) == (*old_key as int, *val));
        }
        self.modify_hash_mapping(id, new_key);
        let ghost h1 = self.hash@;
        set_key(&mut self.nodes, id, new_key);
        proof {
            let ns = self.nodes@;
            let ch = self.chains@;
            let q = id as int;
            assert forall|j: int| live(ns, j) == live(ns0, j) by {}
            assert forall|j: int|
                live(ns0, j) implies (#[trigger] node_of(ns, j)).parent == node_of(ns0, j).parent
                    && node_of(ns, j).children == node_of(ns0, j).children && node_of(
                    ns,
                    j,
                ).val == node_of(ns0, j).val by {}
            assert forall|j: int| live(ns0, j) && j != q implies nkey(ns, j) == nkey(ns0, j) by {}
            assert(nkey(ns, q) == new_key as int);
            assert(!pl.better_spec(nkey(ns0, q), nkey(ns, q)));
            // the forest, with the decreased node as the exception
            assert forall|j: int|
                #[trigger] live(ns, j) && j != q implies node_ok(
                ns,
                pl,
                self.trees@,
                Seq::empty(),
                j,
            ) by {
                assert(live(ns0, j));
                assert(node_ok(ns0, pl, self.trees@, Seq::empty(), j));
                if let Some(pj) = node_of(ns0, j).parent {
                    assert(!pl.better_spec(nkey(ns, j), nkey(ns, pj as int))) by {
                        assert(!pl.better_spec(nkey(ns0, j), nkey(ns0, pj as int)));
                    }
                }
                assert forall|ci: int|
                    0 <= ci < node_of(ns, j).children@.len() implies {
                    let cc = (#[trigger] node_of(ns, j).children@[ci]) as int;
                    &&& live(ns, cc)
                    &&& cc != j
                    &&& node_of(ns, cc).parent == Some(j as usize)
                    &&& node_of(ns, cc).children@.len() == ci
                } by {
                    let cc = node_of(ns0, j).children@[ci] as int;
                    assert(live(ns0, cc) && node_of(ns0, cc).parent == Some(j as usize)
                        && node_of(ns0, cc).children@.len() == ci && cc != j);
                }
            }
            assert(node_ok(ns0, pl, self.trees@, Seq::empty(), q));
            assert forall|ci: int|
                0 <= ci < node_of(ns, q).children@.len() implies {
                let c = (#[trigger] node_of(ns, q).children@[ci]) as int;
                &&& live(ns, c)
                &&& c != q
                &&& node_of(ns, c).parent == Some(id)
                &&& node_of(ns, c).children@.len() == ci
            } by {
                let c = node_of(ns0, q).children@[ci] as int;
                assert(live(ns0, c) && node_of(ns0, c).parent == Some(id) && node_of(
                    ns0,
                    c,
                ).children@.len() == ci && c != q);
            }
            // the chains, with domination relaxed only at the node
            assert forall|j: int| #[trigger] live(ns, j) && j != q implies chain_ok(
                ns,
                ch,
                pl,
                j,
            ) by {
                assert(live(ns0, j));
                assert(chain_ok(ns0, ch, pl, j));
                let cj = ch[j];
                assert forall|m: int| 0 <= m < cj.len() implies live(ns, #[trigger] cj[m])
                    && !pl.better_spec(nkey(ns, j), nkey(ns, cj[m])) by {
                    assert(live(ns0, cj[m]));
                    assert(!pl.better_spec(nkey(ns0, j), nkey(ns0, cj[m])));
                }
                assert forall|m: int| 0 <= m < cj.len() - 1 implies node_of(
                    ns,
                    #[trigger] cj[m],
                ).parent == Some(cj[m + 1] as usize) by {
                    assert(live(ns0, cj[m]));
                    assert(node_of(ns0, cj[m]).parent == Some(cj[m + 1] as usize));
                }
                assert(live(ns0, cj.last()));
                assert(node_of(ns, cj.last()).parent == node_of(ns0, cj.last()).parent);
            }
            assert(chain_ok(ns0, ch, pl, q));
            assert forall|m: int| 0 <= m < ch[q].len() implies live(ns, #[trigger] ch[q][m]) by {
                assert(live(ns0, ch[q][m]));
            }
            assert forall|m: int| 0 <= m < ch[q].len() - 1 implies node_of(
                ns,
                #[trigger] ch[q][m],
            ).parent == Some(ch[q][m + 1] as usize) by {
                assert(live(ns0, ch[q][m]));
                assert(node_of(ns0, ch[q][m]).parent == Some(ch[q][m + 1] as usize));
            }
            assert(live(ns0, ch[q].last()));
            assert(node_of(ns, ch[q].last()).parent == node_of(ns0, ch[q].last()).parent);
            // the subtree under the node is still dominated by its parent
            assert forall|j: int, m: int|
                live(ns, j) && j != q && 0 <= m < ch[j].len() && (#[trigger] ch[j][m])
                    == q implies (node_of(ns, q).parent matches Some(pq) ==> !pl.better_spec(
                    nkey(ns, j),
                    nkey(ns, pq as int),
                )) by {
                if let Some(pq) = node_of(ns, q).parent {
                    assert(chain_ok(ns0, ch, pl, j));
                    assert(m + 1 < ch[j].len()) by {
                        assert(live(ns0, ch[j].last()));
                        assert(node_of(ns0, ch[j].last()).parent is None);
                        if m == ch[j].len() - 1 {
                            assert(ch[j].last() == q);
                            assert(node_of(ns0, q).parent == Some(pq));
                            assert(false);
                        }
                    }
                    assert(node_of(ns0, ch[j][m]).parent == Some(ch[j][m + 1] as usize));
                    assert(live(ns0, ch[j][m + 1]));
                    assert(ns0.len() == nl);
                    assert(ch[j][m + 1] == pq as int);
                    assert(!pl.better_spec(nkey(ns0, j), nkey(ns0, pq as int)));
                    assert(pq as int != q) by {
                        if pq == id {
                            assert(node_of(ns0, q).children@.contains(id));
                            let ci = choose|ci: int|
                                0 <= ci < node_of(ns0, q).children@.len() && (#[trigger] node_of(
                                    ns0,
                                    q,
                                ).children@[ci]) == id;
                            assert(false);
                        }
                    }
                    assert(nkey(ns, pq as int) == nkey(ns0, pq as int));
                    assert(nkey(ns, j) == nkey(ns0, j));
                }
            }
            // the top exists and still dominates everything but the node
            assert(self.top is Some) by {
                if self.top is None {
                    lemma_empty_forest_empty_bag(ns0, ch, pl, self.trees@);
                    assert(!live(ns0, q));
                }
            }
            let t = self.top->Some_0;
            assert forall|j: int| #[trigger] live(ns, j) && j != q implies !pl.better_spec(
                nkey(ns, j),
                nkey(ns, t as int),
            ) by {
                assert(live(ns0, j));
                assert(!pl.better_spec(nkey(ns0, j), nkey(ns0, t as int)));
                if t as int == q {
                    assert(nkey(ns, t as int) == new_key as int);
                } else {
                    assert(nkey(ns, t as int) == nkey(ns0, t as int));
                }
            }
            // the index already lists the node under its new key
            assert forall|k2: i64, tt: int|
                h1.contains_key(k2) && 0 <= tt < h1[k2]@.len() implies {
                let j = (#[trigger] h1[k2]@[tt]) as int;
                &&& live(ns, j)
                &&& node_of(ns, j).key == k2
            } by {
                let x = h1[k2]@[tt];
                assert(h1[k2]@.contains(x));
                assert(hash_has(h1, k2, x));
                if x == id {
                    assert(k2 == new_key);
                } else {
                    assert(hash_has(old(self).hash@, k2, x));
                    let tt2 = choose|tt2: int|
                        0 <= tt2 < old(self).hash@[k2]@.len() && (
                        #[trigger] old(self).hash@[k2]@[tt2]) == x;
                    assert(live(ns0, x as int) && node_of(ns0, x as int).key == k2);
                    assert(x as int != q);
                }
            }
            assert forall|j: int| #[trigger] live(ns, j) implies h1.contains_key(
                node_of(ns, j).key,
            ) && h1[node_of(ns, j).key]@.contains(j as usize) by {
                if j == q {
                    assert(hash_has(h1, new_key, id));
                } else {
                    assert(live(ns0, j));
                    assert(hash_has(old(self).hash@, node_of(ns0, j).key, j as usize)) by {
                        assert(old(self).hash@.contains_key(node_of(ns0, j).key) && old(
                            self,
                        ).hash@[node_of(ns0, j).key]@.contains(j as usize));
                    }
                    assert(ns0.len() == nl);
                    assert(j as usize != id);
                    assert(hash_has(h1, node_of(ns, j).key, j as usize));
                }
            }
            // the count is untouched
            assert(self.total == bag(ns).len()) by {
                assert(bag(ns) == bag(ns0).remove(npair(ns0, q)).insert(
                    (new_key as int, node_of(ns0, q).val),
                ));
            }
            assert(bubbling_ok(*self, id)) by {
                reveal(bubbling_ok);
            }
        }
        self.heapify_button_up(id);
        Ok(())
    }
}


impl<V: Eq> ModifiableHeap<i64, V> for BinomialHeap<V> {
    closed spec fn may_modify(&self, old_key: &i64, val: &V, new_key: i64) -> bool {
        &&& vstd::laws_eq::obeys_concrete_eq::<V>()
        &&& (new_key == *old_key || self.policy.better_spec(new_key as int, *old_key as int))
    }

    fn modify_key(&mut self, old_key: &i64, val: &V, new_key: i64) -> (r: HeapResult) {
        let r = BinomialHeap::modify_key(self, old_key, val, new_key);
        proof {
            lemma_bag_keyed_count(old(self).nodes@, (*old_key, *val));
            if r is Ok {
                assert(self.contents() =~= old(self).contents().remove(
                    (*old_key, *val),
                ).insert((new_key, *val))) by {
                    assert forall|p: (i64, V)|
                        self.contents().count(p) == old(self).contents().remove(
                            (*old_key, *val),
                        ).insert((new_key, *val)).count(p) by {
                        lemma_bag_keyed_count(self.nodes@, p);
                        lemma_bag_keyed_count(old(self).nodes@, p);
                    }
                }
            }
        }
        r
    }
}

} // verus!
