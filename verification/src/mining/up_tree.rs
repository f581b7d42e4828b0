//! The prefix tree shared by the tree-based miners (UP-Growth, UP-Growth+, IHUP,
//! HUI-Trie): nodes in an arena, linked to their parent, first child, next sibling and
//! the previous node with the same item.
use vstd::prelude::*;
use std::collections::HashMap;
use crate::types::{ItemId, Utility, ItemEntry, RawTransaction};
use crate::storage::chunk_store::ChunkStore;
use super::memory_guard::MemoryGuard;
use super::exact_utility::MiningError;

verus! {

broadcast use vstd::std_specs::hash::group_hash_axioms;

/// The absent link.
pub const NIL: u32 = 0xFFFF_FFFFu32;

/// Bytes the memory guard is charged for a node, where a miner charges per node.
pub const NODE_BYTES: usize = 24;

/// One node of a prefix tree.
#[derive(Clone, Copy, Debug, PartialEq, Eq, Structural)]
pub struct UpNode {
    pub item: ItemId,
    /// The utility accumulated at this node.
    pub nu: Utility,
    pub parent: u32,
    pub first_child: u32,
    pub next_sibling: u32,
    /// The previously created node with the same item.
    pub node_link: u32,
}

/// Links of node `i` point where they may: parents, siblings and same-item links to
/// older nodes, first children to newer ones.
pub open spec fn node_ok(nodes: Seq<UpNode>, i: int) -> bool {
    let n = nodes[i];
    &&& (n.parent == NIL || n.parent < i)
    &&& (n.first_child == NIL || (i < n.first_child && n.first_child < nodes.len()))
    &&& (n.next_sibling == NIL || n.next_sibling < i)
    &&& (n.node_link == NIL || n.node_link < i)
}

/// The first child of node `i` has `i` as its parent, and its next sibling shares its
/// parent.
pub open spec fn sibs_ok(nodes: Seq<UpNode>, i: int) -> bool {
    let n = nodes[i];
    &&& (n.first_child != NIL && n.first_child < nodes.len()) ==> nodes[n.first_child as int].parent == i
    &&& (n.next_sibling != NIL && n.next_sibling < nodes.len()) ==> nodes[n.next_sibling as int].parent == n.parent
}

/// The utility the `k`-th node of an inserted path gains: `util`, less (with `decrement`)
/// the utilities of the items before it.
pub open spec fn path_gain(path: Seq<(ItemId, Utility)>, util: int, decrement: bool, k: int) -> int
    decreases k,
{
    if k <= 0 || !decrement {
        util
    } else {
        path_gain(path, util, decrement, k - 1) - path[k - 1].1
    }
}

/// The utility of node `i` before an insertion: its old one, or zero for a new node.
pub open spec fn old_nu(old_nodes: Seq<UpNode>, i: int) -> int {
    if i < old_nodes.len() { old_nodes[i].nu as int } else { 0 }
}

/// `idx` names the nodes of the first `k` items of an inserted path, in increasing
/// order: the `q`-th holds the `q`-th item, below the root for the first and below the
/// previous one after, and has gained its share of the utility; no other node's utility
/// changed, and every node added is among them.
#[verifier::opaque]
pub open spec fn placed_upto(
    old_nodes: Seq<UpNode>,
    nodes: Seq<UpNode>,
    path: Seq<(ItemId, Utility)>,
    util: int,
    decrement: bool,
    idx: Seq<int>,
    k: int,
) -> bool {
    &&& idx.len() == k
    &&& forall|q: int| 0 <= q < k ==> {
        &&& 0 < #[trigger] idx[q] < nodes.len()
        &&& nodes[idx[q]].item == path[q].0
        &&& nodes[idx[q]].parent as int == (if q == 0 { 0 } else { idx[q - 1] })
        &&& nodes[idx[q]].nu == old_nu(old_nodes, idx[q]) + path_gain(path, util, decrement, q)
    }
    &&& forall|a: int, b: int| 0 <= a < b < k ==> #[trigger] idx[a] < #[trigger] idx[b]
    &&& forall|i: int| 0 <= i < old_nodes.len() && !idx.contains(i) ==> (#[trigger] nodes[i]).nu == old_nodes[i].nu
    &&& forall|i: int| old_nodes.len() <= i < nodes.len() ==> idx.contains(i)
}

/// `idx` names the nodes of the whole inserted path (see `placed_upto`).
pub open spec fn path_placed(
    old_nodes: Seq<UpNode>,
    nodes: Seq<UpNode>,
    path: Seq<(ItemId, Utility)>,
    util: int,
    decrement: bool,
    idx: Seq<int>,
) -> bool {
    placed_upto(old_nodes, nodes, path, util, decrement, idx, path.len() as int)
}

/// What the placement of the first `k` items says of the nodes named.
proof fn lemma_placed_basics(
    old_nodes: Seq<UpNode>,
    nodes: Seq<UpNode>,
    path: Seq<(ItemId, Utility)>,
    util: int,
    decrement: bool,
    idx: Seq<int>,
    k: int,
)
    requires
        placed_upto(old_nodes, nodes, path, util, decrement, idx, k),
    ensures
        idx.len() == k,
        forall|q: int| 0 <= q < k ==> 0 < #[trigger] idx[q] < nodes.len(),
        forall|a: int, b: int| 0 <= a < b < k ==> #[trigger] idx[a] < #[trigger] idx[b],
        forall|i: int| old_nodes.len() <= i < nodes.len() ==> idx.contains(i),
        forall|i: int| 0 <= i < old_nodes.len() && !idx.contains(i) ==> (#[trigger] nodes[i]).nu == old_nodes[i].nu,
{
    reveal(placed_upto);
}

/// One more item placed at node `f`: the only node that changed (or was added), below the
/// previous one, with its share of the utility added.
proof fn lemma_place_next(
    old_nodes: Seq<UpNode>,
    before: Seq<UpNode>,
    after: Seq<UpNode>,
    path: Seq<(ItemId, Utility)>,
    util: int,
    decrement: bool,
    idx: Seq<int>,
    k: int,
    f: int,
)
    requires
        placed_upto(old_nodes, before, path, util, decrement, idx, k),
        0 <= k < path.len(),
        before.len() >= old_nodes.len(),
        0 < f < after.len(),
        after.len() == before.len() || (after.len() == before.len() + 1 && f == before.len()),
        after[f].item == path[k].0,
        after[f].parent as int == (if k == 0 { 0 } else { idx[k - 1] }),
        k > 0 ==> idx[k - 1] < f,
        after[f].nu == old_nu(old_nodes, f) + path_gain(path, util, decrement, k),
        forall|i: int| 0 <= i < before.len() && i != f ==> {
            &&& (#[trigger] after[i]).nu == before[i].nu
            &&& after[i].item == before[i].item
            &&& after[i].parent == before[i].parent
        },
    ensures
        placed_upto(old_nodes, after, path, util, decrement, idx.push(f), k + 1),
{
    reveal(placed_upto);
    let idx2 = idx.push(f);
    assert(!idx.contains(f)) by {
        if idx.contains(f) {
            let w = choose|w: int| 0 <= w < idx.len() && idx[w] == f;
            if w < k - 1 {
                assert(idx[w] < idx[k - 1]);
            }
        }
    }
    assert forall|q: int| 0 <= q < k + 1 implies {
        &&& 0 < #[trigger] idx2[q] < after.len()
        &&& after[idx2[q]].item == path[q].0
        &&& after[idx2[q]].parent as int == (if q == 0 { 0 } else { idx2[q - 1] })
        &&& after[idx2[q]].nu == old_nu(old_nodes, idx2[q]) + path_gain(path, util, decrement, q)
    } by {
        if q < k {
            assert(idx2[q] == idx[q]);
            assert(idx[q] != f);
            if q > 0 {
                assert(idx2[q - 1] == idx[q - 1]);
            }
        }
    }
    assert forall|a: int, b: int| 0 <= a < b < k + 1 implies #[trigger] idx2[a] < #[trigger] idx2[b] by {
        if b < k {
            assert(idx2[a] == idx[a] && idx2[b] == idx[b]);
        } else if a < k - 1 {
            assert(idx[a] < idx[k - 1]);
        }
    }
    assert forall|i: int| 0 <= i < old_nodes.len() && !idx2.contains(i) implies (#[trigger] after[i]).nu == old_nodes[i].nu by {
        assert(i != f) by {
            assert(idx2[k] == f);
        }
        assert(!idx.contains(i)) by {
            if idx.contains(i) {
                let w = choose|w: int| 0 <= w < idx.len() && idx[w] == i;
                assert(idx2[w] == i);
            }
        }
    }
    assert forall|i: int| old_nodes.len() <= i < after.len() implies idx2.contains(i) by {
        if i == f {
            assert(idx2[k] == i);
        } else {
            assert(i < before.len());
            assert(idx.contains(i));
            let w = choose|w: int| 0 <= w < idx.len() && idx[w] == i;
            assert(idx2[w] == i);
        }
    }
}

/// Adding a node below `cur`, as its new first child ahead of the old one, keeps every
/// link where it may point and every sibling under its parent.
proof fn lemma_add_child(before: Seq<UpNode>, cur: int, n: UpNode, p2: UpNode, after: Seq<UpNode>)
    requires
        0 <= cur < before.len(),
        forall|i: int| 0 <= i < before.len() ==> #[trigger] node_ok(before, i),
        forall|i: int| 0 <= i < before.len() ==> #[trigger] sibs_ok(before, i),
        n.parent == cur,
        n.first_child == NIL,
        n.next_sibling == before[cur].first_child,
        n.node_link == NIL || n.node_link < before.len(),
        p2.item == before[cur].item,
        p2.nu == before[cur].nu,
        p2.parent == before[cur].parent,
        p2.next_sibling == before[cur].next_sibling,
        p2.node_link == before[cur].node_link,
        p2.first_child == before.len(),
        after == before.push(n).update(cur, p2),
    ensures
        forall|i: int| 0 <= i < after.len() ==> #[trigger] node_ok(after, i),
        forall|i: int| 0 <= i < after.len() ==> #[trigger] sibs_ok(after, i),
{
    let new_idx = before.len() as int;
    assert forall|i: int| 0 <= i < after.len() implies #[trigger] node_ok(after, i) by {
        if i < before.len() && i != cur {
            assert(node_ok(before, i));
            assert(after[i] == before[i]);
        } else if i == cur {
            assert(node_ok(before, i));
            assert(after[i] == p2);
        } else {
            assert(i == new_idx);
            assert(after[i] == n);
            assert(node_ok(before, cur));
        }
    }
    assert forall|i: int| 0 <= i < after.len() implies #[trigger] sibs_ok(after, i) by {
        if i < before.len() && i != cur {
            assert(sibs_ok(before, i));
            assert(node_ok(before, i));
            assert(after[i] == before[i]);
            let m = before[i];
            if m.first_child != NIL && m.first_child < before.len() {
                if m.first_child == cur {
                    assert(after[cur].parent == before[cur].parent);
                } else {
                    assert(after[m.first_child as int] == before[m.first_child as int]);
                }
            }
            if m.next_sibling != NIL && m.next_sibling < before.len() {
                if m.next_sibling == cur {
                    assert(after[cur].parent == before[cur].parent);
                } else {
                    assert(after[m.next_sibling as int] == before[m.next_sibling as int]);
                }
            }
        } else if i == cur {
            assert(after[i] == p2);
            assert(after[new_idx].parent == cur);
            assert(node_ok(before, i));
            assert(sibs_ok(before, i));
            if p2.next_sibling != NIL && p2.next_sibling < after.len() {
                assert(p2.next_sibling < i);
                assert(after[p2.next_sibling as int] == before[p2.next_sibling as int]);
            }
        } else {
            assert(i == new_idx);
            assert(after[i] == n);
            assert(node_ok(before, cur));
            assert(sibs_ok(before, cur));
            let ns = n.next_sibling;
            if ns != NIL && ns < after.len() {
                assert(ns < before.len());
                assert(before[ns as int].parent == cur);
                assert(ns != cur) by {
                    assert(node_ok(before, ns as int));
                }
                assert(after[ns as int] == before[ns as int]);
            }
        }
    }
}

/// The nodes met from `cur` by following same-item links, `cur` first.
pub open spec fn link_chain(nodes: Seq<UpNode>, cur: u32) -> Seq<u32>
    decreases cur,
{
    if cur == NIL || cur >= nodes.len() {
        Seq::empty()
    } else if nodes[cur as int].node_link != NIL && nodes[cur as int].node_link < cur {
        seq![cur] + link_chain(nodes, nodes[cur as int].node_link)
    } else {
        seq![cur]
    }
}

/// The nodes met from `p` by following parent links, `p` first, up to (without) the
/// root.
pub open spec fn parent_chain(nodes: Seq<UpNode>, p: u32) -> Seq<u32>
    decreases p,
{
    if p == 0 || p == NIL || p >= nodes.len() {
        Seq::empty()
    } else if nodes[p as int].parent != NIL && nodes[p as int].parent < p {
        seq![p] + parent_chain(nodes, nodes[p as int].parent)
    } else {
        seq![p]
    }
}

/// The nodes met from `c` by following sibling links, `c` first.
pub open spec fn sibling_chain(nodes: Seq<UpNode>, c: u32) -> Seq<u32>
    decreases c,
{
    if c == NIL || c >= nodes.len() {
        Seq::empty()
    } else if nodes[c as int].next_sibling != NIL && nodes[c as int].next_sibling < c {
        seq![c] + sibling_chain(nodes, nodes[c as int].next_sibling)
    } else {
        seq![c]
    }
}

/// The node utilities of the given nodes, summed.
pub open spec fn nu_total(nodes: Seq<UpNode>, ids: Seq<u32>) -> int
    decreases ids.len(),
{
    if ids.len() == 0 { 0 } else { nu_total(nodes, ids.drop_last()) + nodes[ids.last() as int].nu }
}

/// The number of entries of the longest transaction (zero for none).
pub open spec fn longest_tx(txs: Seq<RawTransaction>) -> int
    decreases txs.len(),
{
    if txs.len() == 0 {
        0
    } else {
        let m = longest_tx(txs.drop_last());
        if txs.last().items@.len() > m { txs.last().items@.len() as int } else { m }
    }
}

/// `x + 2`, saturating at `usize::MAX`.
pub open spec fn sat_plus_two(x: int) -> int {
    if x + 2 > usize::MAX { usize::MAX as int } else { x + 2 }
}

/// The pairs of `s` whose item is `want`, in order.
pub open spec fn pick(s: Seq<(ItemId, Utility)>, want: ItemId) -> Seq<(ItemId, Utility)>
    decreases s.len(),
{
    if s.len() == 0 {
        Seq::empty()
    } else if s.last().0 == want {
        pick(s.drop_last(), want).push(s.last())
    } else {
        pick(s.drop_last(), want)
    }
}

/// For each item of `order` in turn, the pairs of `s` with that item.
pub open spec fn arrange(s: Seq<(ItemId, Utility)>, order: Seq<(ItemId, Utility)>) -> Seq<(ItemId, Utility)>
    decreases order.len(),
{
    if order.len() == 0 { Seq::empty() } else { arrange(s, order.drop_last()) + pick(s, order.last().0) }
}

/// Bytes of an itemset of `l` items at eight bytes per item, saturating.
pub open spec fn set_bytes(l: int) -> int {
    if l > usize::MAX / 8 { usize::MAX as int } else { l * 8 }
}

/// The bytes of the itemsets, summed with saturation at `usize::MAX`.
pub open spec fn sets_bytes(sets: Seq<Vec<ItemId>>) -> int
    decreases sets.len(),
{
    if sets.len() == 0 {
        0
    } else {
        let t = sets_bytes(sets.drop_last()) + set_bytes(sets.last()@.len() as int);
        if t > usize::MAX { usize::MAX as int } else { t }
    }
}

/// Some node of the arena holds `x`.
pub open spec fn holds_item(nodes: Seq<UpNode>, x: ItemId) -> bool {
    exists|i: int| 0 <= i < nodes.len() && nodes[i].item == x
}

/// A prefix tree: node 0 is the root; `header` gives, for each item of `items_order`, the
/// newest node with that item.
pub struct UpTree {
    nodes: Vec<UpNode>,
    header: HashMap<ItemId, u32>,
    items_order: Vec<ItemId>,
}

/// Insertion order of the sort keys: by key (descending or ascending), then by item.
pub open spec fn pair_before(a: (ItemId, Utility), b: (ItemId, Utility), descending: bool) -> bool {
    if a.1 == b.1 {
        a.0 <= b.0
    } else if descending {
        a.1 > b.1
    } else {
        a.1 < b.1
    }
}

pub open spec fn pairs_sorted(s: Seq<(ItemId, Utility)>, descending: bool) -> bool {
    forall|i: int, j: int| 0 <= i < j < s.len() ==> pair_before(s[i], s[j], descending)
}

fn before(a: (ItemId, Utility), b: (ItemId, Utility), descending: bool) -> (r: bool)
    ensures
        r == pair_before(a, b, descending),
{
    if a.1 == b.1 {
        a.0 <= b.0
    } else if descending {
        a.1 > b.1
    } else {
        a.1 < b.1
    }
}

/// Sorts `(item, key)` pairs by key (descending if asked), ties by ascending item.
pub fn sort_pairs(v: &Vec<(ItemId, Utility)>, descending: bool) -> (r: Vec<(ItemId, Utility)>)
    ensures
        r@.len() == v@.len(),
        pairs_sorted(r@, descending),
        forall|x: (ItemId, Utility)| r@.contains(x) <==> v@.contains(x),
        v@.no_duplicates() ==> r@.no_duplicates(),
{
    let mut out: Vec<(ItemId, Utility)> = Vec::new();
    let mut i: usize = 0;
    while i < v.len()
        invariant
            i <= v@.len(),
            out@.len() == i,
            pairs_sorted(out@, descending),
            forall|x: (ItemId, Utility)| out@.contains(x) <==> v@.take(i as int).contains(x),
            v@.no_duplicates() ==> out@.no_duplicates(),
        decreases v@.len() - i,
    {
        let x = v[i];
        let mut p: usize = 0;
        while p < out.len()
            invariant
                p <= out@.len(),
                forall|q: int| 0 <= q < p ==> pair_before(#[trigger] out@[q], x, descending),
            ensures
                p <= out@.len(),
                forall|q: int| 0 <= q < p ==> pair_before(#[trigger] out@[q], x, descending),
                p < out@.len() ==> !pair_before(out@[p as int], x, descending),
            decreases out@.len() - p,
        {
            if !before(out[p], x, descending) {
                break;
            }
            p = p + 1;
        }
        let ghost old_out = out@;
        out.insert(p, x);
        proof {
            assert(out@ =~= old_out.take(p as int) + seq![x] + old_out.skip(p as int));
            if v@.no_duplicates() {
                assert(!old_out.contains(x)) by {
                    if old_out.contains(x) {
                        assert(v@.take(i as int).contains(x));
                        let j = choose|j: int| 0 <= j < i && v@.take(i as int)[j] == x;
                        assert(v@[j] == v@[i as int]);
                    }
                }
                assert forall|a: int, b: int| 0 <= a < out@.len() && 0 <= b < out@.len() && a != b
                    implies out@[a] != out@[b] by {
                    let a0 = if a < p { a } else { a - 1 };
                    let b0 = if b < p { b } else { b - 1 };
                    if a == p {
                        assert(out@[b] == old_out[b0]);
                        assert(old_out.contains(old_out[b0]));
                    } else if b == p {
                        assert(out@[a] == old_out[a0]);
                        assert(old_out.contains(old_out[a0]));
                    } else {
                        assert(out@[a] == old_out[a0]);
                        assert(out@[b] == old_out[b0]);
                    }
                }
            }
            assert forall|a: int, b: int| 0 <= a < b < out@.len() implies pair_before(out@[a], out@[b], descending) by {
                if p < old_out.len() {
                    assert(!pair_before(old_out[p as int], x, descending));
                }
                if b == p {
                    assert(out@[a] == old_out[a]);
                } else if a == p {
                    assert(out@[b] == old_out[b - 1]);
                    if b - 1 > p {
                        assert(pair_before(old_out[p as int], old_out[b - 1], descending));
                    }
                } else {
                    let a0 = if a < p { a } else { a - 1 };
                    let b0 = if b < p { b } else { b - 1 };
                    assert(out@[a] == old_out[a0]);
                    assert(out@[b] == old_out[b0]);
                }
            }
            let t0 = v@.take(i as int);
            let t1 = v@.take(i + 1);
            assert(t1 =~= t0.push(x));
            assert forall|y: (ItemId, Utility)| out@.contains(y) <==> t1.contains(y) by {
                if out@.contains(y) {
                    let k = choose|k: int| 0 <= k < out@.len() && out@[k] == y;
                    if k < p {
                        assert(old_out[k] == y);
                    } else if k > p {
                        assert(old_out[k - 1] == y);
                    }
                    if y != x {
                        assert(old_out.contains(y));
                        assert(t0.contains(y));
                        let j = choose|j: int| 0 <= j < t0.len() && t0[j] == y;
                        assert(t1[j] == y);
                    } else {
                        assert(t1[i as int] == x);
                    }
                }
                if t1.contains(y) {
                    let j = choose|j: int| 0 <= j < t1.len() && t1[j] == y;
                    if j == i {
                        assert(out@[p as int] == y);
                    } else {
                        assert(t0[j] == y);
                        assert(old_out.contains(y));
                        let k = choose|k: int| 0 <= k < old_out.len() && old_out[k] == y;
                        if k < p {
                            assert(out@[k] == y);
                        } else {
                            assert(out@[k + 1] == y);
                        }
                    }
                }
            }
        }
        i = i + 1;
    }
    proof {
        assert(v@.take(i as int) =~= v@);
    }
    out
}

impl UpTree {
    /// The nodes, root first.
    pub closed spec fn node_seq(&self) -> Seq<UpNode> {
        self.nodes@
    }

    /// Newest node of each item of the order.
    pub closed spec fn heads(&self) -> Map<ItemId, u32> {
        self.header@
    }

    /// The items of the tree in their order.
    pub closed spec fn order(&self) -> Seq<ItemId> {
        self.items_order@
    }

    /// Every link stays inside the arena and points the way `node_ok` says.
    pub closed spec fn wf(&self) -> bool {
        &&& 1 <= self.nodes@.len() < NIL
        &&& self.nodes@[0].parent == NIL
        &&& forall|i: int| 0 <= i < self.nodes@.len() ==> #[trigger] node_ok(self.nodes@, i)
        &&& forall|i: int| 0 <= i < self.nodes@.len() ==> #[trigger] sibs_ok(self.nodes@, i)
        &&& forall|k: ItemId| #[trigger] self.header@.contains_key(k)
            ==> (self.header@[k] == NIL || self.header@[k] < self.nodes@.len())
    }

    /// A tree with only the root, and no node yet for any item of `items_order`.
    pub fn new(items_order: Vec<ItemId>) -> (r: Self)
        ensures
            r.wf(),
            r.node_seq().len() == 1,
            r.order() == items_order@,
            forall|k: ItemId| #[trigger] r.heads().contains_key(k) <==> items_order@.contains(k),
            forall|k: ItemId| #[trigger] r.heads().contains_key(k) ==> r.heads()[k] == NIL,
    {
        let mut header: HashMap<ItemId, u32> = HashMap::new();
        let mut i: usize = 0;
        while i < items_order.len()
            invariant
                i <= items_order@.len(),
                forall|k: ItemId| #[trigger] header@.contains_key(k) <==> items_order@.take(i as int).contains(k),
                forall|k: ItemId| #[trigger] header@.contains_key(k) ==> header@[k] == NIL,
            decreases items_order@.len() - i,
        {
            let it = items_order[i];
            header.insert(it, NIL);
            proof {
                let t0 = items_order@.take(i as int);
                let t1 = items_order@.take(i + 1);
                assert(t1 =~= t0.push(it));
                assert forall|k: ItemId| #[trigger] header@.contains_key(k) <==> t1.contains(k) by {
                    if t0.contains(k) {
                        let j = choose|j: int| 0 <= j < t0.len() && t0[j] == k;
                        assert(t1[j] == k);
                    }
                    if t1.contains(k) && k != it {
                        let j = choose|j: int| 0 <= j < t1.len() && t1[j] == k;
                        assert(t0[j] == k);
                    }
                    if k == it {
                        assert(t1[i as int] == it);
                    }
                }
            }
            i = i + 1;
        }
        proof {
            assert(items_order@.take(i as int) =~= items_order@);
        }
        let mut nodes: Vec<UpNode> = Vec::new();
        nodes.push(UpNode { item: 0, nu: 0, parent: NIL, first_child: NIL, next_sibling: NIL, node_link: NIL });
        UpTree { nodes, header, items_order }
    }

    /// The items in their order.
    pub fn items(&self) -> (r: &Vec<ItemId>)
        ensures
            r@ == self.order(),
    {
        &self.items_order
    }

    /// Number of nodes, the root included.
    pub fn node_count(&self) -> (r: usize)
        ensures
            r == self.node_seq().len(),
    {
        self.nodes.len()
    }

    /// Node `i`.
    pub fn node(&self, i: u32) -> (r: UpNode)
        requires
            self.wf(),
            i < self.node_seq().len(),
        ensures
            r == self.node_seq()[i as int],
            node_ok(self.node_seq(), i as int),
    {
        self.nodes[i as usize]
    }

    /// The newest node with `item`, or `NIL`.
    pub fn head(&self, item: ItemId) -> (r: u32)
        requires
            self.wf(),
        ensures
            r == NIL || r < self.node_seq().len(),
            r == (if self.heads().contains_key(item) { self.heads()[item] } else { NIL }),
    {
        match self.header.get(&item) {
            Some(h) => *h,
            None => NIL,
        }
    }

    /// Inserts a path of items below the root, sharing existing prefixes. The first node
    /// gets `util`; with `decrement` the utility given to each later node drops by the
    /// previous item's utility (the utility remaining after it). With `charge`, every new
    /// node is reserved from `guard` first, and a refusal ends the insertion with an error.
    #[verifier::rlimit(100)]
    pub fn insert_path<S: ChunkStore>(
        &mut self,
        path: &[(ItemId, Utility)],
        util: Utility,
        decrement: bool,
        charge: bool,
        guard: &mut MemoryGuard<S>,
    ) -> (r: Result<(), MiningError>)
        requires
            old(self).wf(),
        ensures
            final(self).wf(),
            final(self).order() == old(self).order(),
            final(self).node_seq().len() >= old(self).node_seq().len(),
            forall|k: ItemId| #[trigger] final(self).heads().contains_key(k) <==> old(self).heads().contains_key(k),
            final(guard).budget_view() == old(guard).budget_view(),
            forall|i: int| 0 <= i < old(self).node_seq().len() ==> (#[trigger] final(self).node_seq()[i]).item == old(self).node_seq()[i].item,
            final(self).node_seq().len() <= old(self).node_seq().len() + path@.len(),
            r is Ok ==> forall|q: int| 0 <= q < path@.len() ==> #[trigger] holds_item(final(self).node_seq(), path@[q].0),
            r is Ok ==> exists|idx: Seq<int>| path_placed(old(self).node_seq(), final(self).node_seq(), path@, util as int, decrement, idx),
            final(guard).used_view() == old(guard).used_view()
                + (if charge { NODE_BYTES * (final(self).node_seq().len() - old(self).node_seq().len()) } else { 0 }),
            r == Err::<(), MiningError>(MiningError::MemoryBudgetExceeded) ==>
                (charge && final(guard).used_view() + NODE_BYTES > final(guard).budget_view())
                || old(self).node_seq().len() + path@.len() >= NIL - 1,
    {
        let mut current: u32 = 0;
        let mut u: Utility = util;
        let mut k: usize = 0;
        let ghost mut idx: Seq<int> = Seq::empty();
        let ghost old_nodes = self.nodes@;
        proof {
            assert(placed_upto(old_nodes, self.nodes@, path@, util as int, decrement, idx, 0)) by {
                reveal(placed_upto);
            }
        }
        while k < path.len()
            invariant
                self.wf(),
                current < self.nodes@.len(),
                self.items_order@ == old(self).items_order@,
                self.nodes@.len() >= old(self).nodes@.len(),
                forall|q: ItemId| #[trigger] self.header@.contains_key(q) <==> old(self).header@.contains_key(q),
                guard.budget_view() == old(guard).budget_view(),
                guard.used_view() == old(guard).used_view()
                    + (if charge { NODE_BYTES * (self.nodes@.len() - old(self).nodes@.len()) } else { 0 }),
                k <= path@.len(),
                self.nodes@.len() <= old(self).nodes@.len() + k,
                forall|i: int| 0 <= i < old(self).nodes@.len() ==> (#[trigger] self.nodes@[i]).item == old(self).nodes@[i].item,
                forall|q: int| 0 <= q < k ==> #[trigger] holds_item(self.nodes@, path@[q].0),
                old_nodes == old(self).nodes@,
                current as int == (if k == 0 { 0 } else { idx[k - 1] }),
                u == path_gain(path@, util as int, decrement, k as int),
                placed_upto(old_nodes, self.nodes@, path@, util as int, decrement, idx, k as int),
            decreases path@.len() - k,
        {
            let (item, item_util) = path[k];
            proof {
                assert(node_ok(self.nodes@, current as int));
                assert(sibs_ok(self.nodes@, current as int));
            }
            let mut child = self.nodes[current as usize].first_child;
            let mut found: u32 = NIL;
            while child != NIL
                invariant_except_break
                    found == NIL,
                invariant
                    self.wf(),
                    current < self.nodes@.len(),
                    child == NIL || child < self.nodes@.len(),
                    child != NIL ==> self.nodes@[child as int].parent == current,
                ensures
                    found == NIL || found < self.nodes@.len(),
                    found != NIL ==> self.nodes@[found as int].item == item,
                    found != NIL ==> self.nodes@[found as int].parent == current,
                decreases (if child == NIL { 0int } else { child + 1 }),
            {
                let c = self.nodes[child as usize];
                proof {
                    assert(node_ok(self.nodes@, child as int));
                    assert(sibs_ok(self.nodes@, child as int));
                }
                if c.item == item {
                    found = child;
                    break;
                }
                child = c.next_sibling;
            }
            let ghost before = self.nodes@;
            proof {
                lemma_placed_basics(old_nodes, before, path@, util as int, decrement, idx, k as int);
            }
            if found != NIL {
                proof {
                    assert(node_ok(self.nodes@, found as int));
                    assert(!idx.contains(found as int)) by {
                        if idx.contains(found as int) {
                            let w = choose|w: int| 0 <= w < idx.len() && idx[w] == found;
                            if w < k - 1 {
                                assert(idx[w] < idx[k - 1]);
                            }
                        }
                    }
                    assert((found as int) < old_nodes.len()) by {
                        if found >= old_nodes.len() {
                            assert(idx.contains(found as int));
                        }
                    }
                }
                let mut c = self.nodes[found as usize];
                match c.nu.checked_add(u) {
                    Some(s) => {
                        c.nu = s;
                    },
                    None => {
                        return Err(MiningError::UtilityOverflow);
                    },
                }
                self.nodes.set(found as usize, c);
                proof {
                    assert forall|i: int| 0 <= i < self.nodes@.len() implies #[trigger] node_ok(self.nodes@, i) by {
                        assert(node_ok(before, i));
                        if i != found {
                            assert(self.nodes@[i] == before[i]);
                        }
                    }
                    assert forall|i: int| 0 <= i < self.nodes@.len() implies #[trigger] sibs_ok(self.nodes@, i) by {
                        assert(sibs_ok(before, i));
                        assert(node_ok(before, i));
                        if i != found {
                            assert(self.nodes@[i] == before[i]);
                        }
                    }
                    assert forall|q: int| 0 <= q < k + 1 implies #[trigger] holds_item(self.nodes@, path@[q].0) by {
                        if q < k {
                            assert(holds_item(before, path@[q].0));
                            let w = choose|w: int| 0 <= w < before.len() && before[w].item == path@[q].0;
                            assert(self.nodes@[w].item == before[w].item);
                        } else {
                            assert(self.nodes@[found as int].item == path@[k as int].0);
                        }
                    }
                    assert(before[found as int].nu == old_nodes[found as int].nu);
                    lemma_place_next(old_nodes, before, self.nodes@, path@, util as int, decrement, idx, k as int, found as int);
                    idx = idx.push(found as int);
                }
                current = found;
            } else {
                if self.nodes.len() >= (NIL - 1) as usize {
                    return Err(MiningError::MemoryBudgetExceeded);
                }
                if charge {
                    if !guard.try_alloc(NODE_BYTES) {
                        return Err(MiningError::MemoryBudgetExceeded);
                    }
                }
                let new_idx = self.nodes.len() as u32;
                let parent = self.nodes[current as usize];
                let link = match self.header.get(&item) {
                    Some(h) => *h,
                    None => NIL,
                };
                proof {
                    if self.header@.contains_key(item) {
                        assert(link == self.header@[item]);
                    }
                    assert(link == NIL || link < before.len());
                }
                let node = UpNode {
                    item,
                    nu: u,
                    parent: current,
                    first_child: NIL,
                    next_sibling: parent.first_child,
                    node_link: link,
                };
                self.nodes.push(node);
                let mut p2 = parent;
                p2.first_child = new_idx;
                self.nodes.set(current as usize, p2);
                proof {
                    lemma_add_child(before, current as int, node, p2, self.nodes@);
                    assert forall|i: int| 0 <= i < old(self).nodes@.len() implies (#[trigger] self.nodes@[i]).item == old(self).nodes@[i].item by {
                        assert(self.nodes@[i].item == before[i].item);
                    }
                    assert forall|q: int| 0 <= q < k + 1 implies #[trigger] holds_item(self.nodes@, path@[q].0) by {
                        if q < k {
                            assert(holds_item(before, path@[q].0));
                            let w = choose|w: int| 0 <= w < before.len() && before[w].item == path@[q].0;
                            assert(self.nodes@[w].item == before[w].item);
                        } else {
                            assert(self.nodes@[new_idx as int].item == path@[k as int].0);
                        }
                    }
                    if k > 0 {
                        assert(idx[k - 1] < before.len());
                    }
                    lemma_place_next(old_nodes, before, self.nodes@, path@, util as int, decrement, idx, k as int, new_idx as int);
                    idx = idx.push(new_idx as int);
                }
                if self.header.contains_key(&item) {
                    self.header.insert(item, new_idx);
                }
                current = new_idx;
            }
            if decrement {
                match u.checked_sub(item_util) {
                    Some(s) => {
                        u = s;
                    },
                    None => {
                        return Err(MiningError::UtilityOverflow);
                    },
                }
            }
            proof {
                assert(path@[k as int].1 == item_util);
                assert(idx[k as int] == current);
            }
            k = k + 1;
        }
        proof {
            assert(path_placed(old(self).node_seq(), self.node_seq(), path@, util as int, decrement, idx));
        }
        Ok(())
    }

    /// The nodes of `item`, newest first.
    pub fn item_nodes(&self, item: ItemId) -> (r: Vec<u32>)
        requires
            self.wf(),
        ensures
            forall|i: int| 0 <= i < r@.len() ==> #[trigger] r@[i] < self.node_seq().len(),
            r@ == link_chain(self.node_seq(), if self.heads().contains_key(item) { self.heads()[item] } else { NIL }),
    {
        let mut out: Vec<u32> = Vec::new();
        let mut cur = self.head(item);
        let ghost full = link_chain(self.nodes@, cur);
        while cur != NIL
            invariant
                self.wf(),
                cur == NIL || cur < self.nodes@.len(),
                forall|i: int| 0 <= i < out@.len() ==> #[trigger] out@[i] < self.nodes@.len(),
                out@ + link_chain(self.nodes@, cur) == full,
            decreases (if cur == NIL { 0int } else { cur + 1 }),
        {
            let ghost before = out@;
            out.push(cur);
            let n = self.nodes[cur as usize];
            proof {
                assert(node_ok(self.nodes@, cur as int));
                assert(out@ + link_chain(self.nodes@, n.node_link) =~= before + link_chain(self.nodes@, cur));
            }
            cur = n.node_link;
        }
        proof {
            assert(out@ + link_chain(self.nodes@, cur) =~= out@);
        }
        out
    }

    /// The ancestors of node `i` below the root, root side first.
    pub fn ancestors(&self, i: u32) -> (r: Vec<u32>)
        requires
            self.wf(),
            i < self.node_seq().len(),
        ensures
            forall|j: int| 0 <= j < r@.len() ==> 0 < #[trigger] r@[j] < i,
            ({
                let c = parent_chain(self.node_seq(), self.node_seq()[i as int].parent);
                &&& r@.len() == c.len()
                &&& forall|j: int| 0 <= j < r@.len() ==> #[trigger] r@[j] == c[c.len() - 1 - j]
            }),
    {
        let mut out: Vec<u32> = Vec::new();
        let n = self.nodes[i as usize];
        proof {
            assert(node_ok(self.nodes@, i as int));
        }
        let mut p = n.parent;
        let ghost full = parent_chain(self.nodes@, p);
        while p != 0 && p != NIL
            invariant
                self.wf(),
                i < self.nodes@.len(),
                p == NIL || p < i,
                forall|j: int| 0 <= j < out@.len() ==> 0 < #[trigger] out@[j] < i,
                out@ + parent_chain(self.nodes@, p) == full,
            decreases (if p == NIL { 0int } else { p + 1 }),
        {
            let ghost before = out@;
            out.push(p);
            let pn = self.nodes[p as usize];
            proof {
                assert(node_ok(self.nodes@, p as int));
                assert(out@ + parent_chain(self.nodes@, pn.parent) =~= before + parent_chain(self.nodes@, p));
            }
            p = pn.parent;
        }
        proof {
            assert(out@ + parent_chain(self.nodes@, p) =~= out@);
        }
        let mut rev: Vec<u32> = Vec::new();
        let mut k = out.len();
        while k > 0
            invariant
                k <= out@.len(),
                forall|j: int| 0 <= j < out@.len() ==> 0 < #[trigger] out@[j] < i,
                forall|j: int| 0 <= j < rev@.len() ==> 0 < #[trigger] rev@[j] < i,
                rev@.len() == out@.len() - k,
                forall|j: int| 0 <= j < rev@.len() ==> #[trigger] rev@[j] == out@[out@.len() - 1 - j],
            decreases k,
        {
            rev.push(out[k - 1]);
            k = k - 1;
        }
        rev
    }
}

/// Some entry has the item and utility of `p`.
pub open spec fn entry_of(items: Seq<ItemEntry>, p: (ItemId, Utility)) -> bool {
    exists|j: int| 0 <= j < items.len() && items[j].item == p.0 && items[j].utility == p.1
}

/// The entries of a transaction whose item is in `order`, arranged by `order`; entries
/// with the same item keep their relative order.
pub fn tx_path(items: &[ItemEntry], order: &Vec<(ItemId, Utility)>) -> (r: Vec<(ItemId, Utility)>)
    ensures
        forall|k: int| 0 <= k < r@.len() ==> #[trigger] entry_of(items@, r@[k]),
        r@ == arrange(items@.map_values(|e: ItemEntry| (e.item, e.utility)), order@),
{
    let ghost s = items@.map_values(|e: ItemEntry| (e.item, e.utility));
    let mut out: Vec<(ItemId, Utility)> = Vec::new();
    let mut o: usize = 0;
    while o < order.len()
        invariant
            o <= order@.len(),
            forall|k: int| 0 <= k < out@.len() ==> #[trigger] entry_of(items@, out@[k]),
            s == items@.map_values(|e: ItemEntry| (e.item, e.utility)),
            out@ == arrange(s, order@.take(o as int)),
        decreases order@.len() - o,
    {
        let want = order[o].0;
        let ghost base = out@;
        let mut j: usize = 0;
        while j < items.len()
            invariant
                j <= items@.len(),
                forall|k: int| 0 <= k < out@.len() ==> #[trigger] entry_of(items@, out@[k]),
                s == items@.map_values(|e: ItemEntry| (e.item, e.utility)),
                out@ == base + pick(s.take(j as int), want),
            decreases items@.len() - j,
        {
            proof {
                assert(s.take(j + 1).drop_last() =~= s.take(j as int));
                assert(s.take(j + 1).last() == s[j as int]);
            }
            if items[j].item == want {
                out.push((items[j].item, items[j].utility));
                proof {
                    let k = out@.len() - 1;
                    assert(out@[k] == (items@[j as int].item, items@[j as int].utility));
                    assert(entry_of(items@, out@[k]));
                }
            }
            j = j + 1;
        }
        proof {
            assert(s.take(j as int) =~= s);
            assert(order@.take(o + 1).drop_last() =~= order@.take(o as int));
            assert(order@.take(o + 1).last() == order@[o as int]);
        }
        o = o + 1;
    }
    proof {
        assert(order@.take(o as int) =~= order@);
    }
    out
}

/// The items of `path` that are in `order`, arranged by `order` (each with utility 0);
/// repeated items keep their relative order.
pub fn arrange_items(path: &Vec<ItemId>, order: &Vec<(ItemId, Utility)>) -> (r: Vec<(ItemId, Utility)>)
    ensures
        forall|k: int| 0 <= k < r@.len() ==> path@.contains((#[trigger] r@[k]).0) && r@[k].1 == 0,
        r@ == arrange(path@.map_values(|x: ItemId| (x, 0i64)), order@),
{
    let ghost s = path@.map_values(|x: ItemId| (x, 0i64));
    let mut out: Vec<(ItemId, Utility)> = Vec::new();
    let mut o: usize = 0;
    while o < order.len()
        invariant
            o <= order@.len(),
            forall|k: int| 0 <= k < out@.len() ==> path@.contains((#[trigger] out@[k]).0) && out@[k].1 == 0,
            s == path@.map_values(|x: ItemId| (x, 0i64)),
            out@ == arrange(s, order@.take(o as int)),
        decreases order@.len() - o,
    {
        let want = order[o].0;
        let ghost base = out@;
        let mut j: usize = 0;
        while j < path.len()
            invariant
                j <= path@.len(),
                forall|k: int| 0 <= k < out@.len() ==> path@.contains((#[trigger] out@[k]).0) && out@[k].1 == 0,
                s == path@.map_values(|x: ItemId| (x, 0i64)),
                out@ == base + pick(s.take(j as int), want),
            decreases path@.len() - j,
        {
            proof {
                assert(s.take(j + 1).drop_last() =~= s.take(j as int));
                assert(s.take(j + 1).last() == s[j as int]);
            }
            if path[j] == want {
                out.push((path[j], 0));
                proof {
                    assert(path@[j as int] == want);
                }
            }
            j = j + 1;
        }
        proof {
            assert(s.take(j as int) =~= s);
            assert(order@.take(o + 1).drop_last() =~= order@.take(o as int));
            assert(order@.take(o + 1).last() == order@[o as int]);
        }
        o = o + 1;
    }
    proof {
        assert(order@.take(o as int) =~= order@);
    }
    out
}

/// Position of `x` in `items`, if present.
pub fn index_of(items: &Vec<ItemId>, x: ItemId) -> (r: Option<usize>)
    ensures
        match r {
            Some(i) => i < items@.len() && items@[i as int] == x,
            None => !items@.contains(x),
        },
{
    let mut i: usize = 0;
    while i < items.len()
        invariant
            i <= items@.len(),
            forall|q: int| 0 <= q < i ==> items@[q] != x,
        decreases items@.len() - i,
    {
        if items[i] == x {
            return Some(i);
        }
        i = i + 1;
    }
    None
}

/// The distinct items of the paths, in order of first appearance, each with the summed
/// utility of the paths holding it (once per occurrence).
pub fn local_twu(cpb: &Vec<(Vec<ItemId>, Utility)>) -> (r: Result<(Vec<ItemId>, Vec<Utility>), MiningError>)
    ensures
        r matches Ok((items, twus)) ==> items@.len() == twus@.len()
            && forall|a: int, b: int| 0 <= a < b < items@.len() ==> items@[a] != items@[b],
        r matches Ok((items, twus)) ==> forall|c: int, k: int| 0 <= c < cpb@.len() && 0 <= k < cpb@[c].0@.len()
            ==> items@.contains(#[trigger] cpb@[c].0@[k]),
        r matches Ok((items, twus)) ==> forall|i: int| 0 <= i < items@.len() ==> #[trigger] in_paths(cpb@, items@[i]),
        paths_weight(cpb@) <= i64::MAX ==> r is Ok,
{
    let mut items: Vec<ItemId> = Vec::new();
    let mut twus: Vec<Utility> = Vec::new();
    let ghost small = paths_weight(cpb@) <= i64::MAX;
    let mut c: usize = 0;
    while c < cpb.len()
        invariant
            c <= cpb@.len(),
            items@.len() == twus@.len(),
            forall|a: int, b: int| 0 <= a < b < items@.len() ==> items@[a] != items@[b],
            forall|c2: int, k2: int| 0 <= c2 < c && 0 <= k2 < cpb@[c2].0@.len() ==> items@.contains(#[trigger] cpb@[c2].0@[k2]),
            forall|i: int| 0 <= i < items@.len() ==> #[trigger] in_paths(cpb@, items@[i]),
            small == (paths_weight(cpb@) <= i64::MAX),
            small ==> forall|i: int| 0 <= i < twus@.len() ==> abs(#[trigger] twus@[i] as int) <= paths_weight(cpb@.take(c as int)),
        decreases cpb@.len() - c,
    {
        let pu = cpb[c].1;
        let ghost w0 = paths_weight(cpb@.take(c as int));
        let ghost a: int = abs(pu as int);
        proof {
            assert(cpb@.take(c + 1).drop_last() =~= cpb@.take(c as int));
            assert(cpb@.take(c + 1).last() == cpb@[c as int]);
            lemma_paths_weight_prefix(cpb@, c + 1);
            lemma_paths_weight_prefix(cpb@, c as int);
        }
        let mut k: usize = 0;
        while k < cpb[c].0.len()
            invariant
                c < cpb@.len(),
                k <= cpb@[c as int].0@.len(),
                items@.len() == twus@.len(),
                pu == cpb@[c as int].1,
                a == abs(pu as int),
                w0 == paths_weight(cpb@.take(c as int)),
                paths_weight(cpb@.take(c + 1)) == w0 + cpb@[c as int].0@.len() * a,
                paths_weight(cpb@.take(c + 1)) <= paths_weight(cpb@),
                w0 >= 0,
                forall|a2: int, b2: int| 0 <= a2 < b2 < items@.len() ==> items@[a2] != items@[b2],
                forall|c2: int, k2: int| 0 <= c2 < c && 0 <= k2 < cpb@[c2].0@.len() ==> items@.contains(#[trigger] cpb@[c2].0@[k2]),
                forall|k2: int| 0 <= k2 < k ==> items@.contains(#[trigger] cpb@[c as int].0@[k2]),
                forall|i: int| 0 <= i < items@.len() ==> #[trigger] in_paths(cpb@, items@[i]),
                small == (paths_weight(cpb@) <= i64::MAX),
                small ==> forall|i: int| 0 <= i < twus@.len() ==> abs(#[trigger] twus@[i] as int) <= w0 + k * a,
            decreases cpb@[c as int].0@.len() - k,
        {
            let x = cpb[c].0[k];
            let ghost items0 = items@;
            let ghost twus0 = twus@;
            proof {
                assert(k * a + a <= cpb@[c as int].0@.len() * a) by (nonlinear_arith)
                    requires k < cpb@[c as int].0@.len(), a >= 0;
                assert((k + 1) * a == k * a + a) by (nonlinear_arith);
                assert(in_paths(cpb@, x)) by {
                    assert(0 <= c < cpb@.len() && 0 <= k < cpb@[c as int].0@.len() && cpb@[c as int].0@[k as int] == x);
                }
            }
            match index_of(&items, x) {
                Some(i) => {
                    match twus[i].checked_add(pu) {
                        Some(v) => {
                            twus.set(i, v);
                        },
                        None => {
                            proof {
                                if small {
                                    assert(abs(twus0[i as int] as int) <= w0 + k * a);
                                    assert(w0 + k * a + a <= paths_weight(cpb@));
                                }
                            }
                            return Err(MiningError::UtilityOverflow);
                        },
                    }
                },
                None => {
                    items.push(x);
                    twus.push(pu);
                    proof {
                        assert forall|a2: int, b2: int| 0 <= a2 < b2 < items@.len() implies items@[a2] != items@[b2] by {
                            if b2 == items0.len() {
                                assert(items0.contains(items0[a2]));
                            }
                        }
                    }
                },
            }
            proof {
                assert forall|c2: int, k2: int| 0 <= c2 < c && 0 <= k2 < cpb@[c2].0@.len() implies items@.contains(#[trigger] cpb@[c2].0@[k2]) by {
                    let y = cpb@[c2].0@[k2];
                    assert(items0.contains(y));
                    let j = choose|j: int| 0 <= j < items0.len() && items0[j] == y;
                    assert(items@[j] == y);
                }
                assert forall|k2: int| 0 <= k2 < k + 1 implies items@.contains(#[trigger] cpb@[c as int].0@[k2]) by {
                    let y = cpb@[c as int].0@[k2];
                    if k2 < k {
                        assert(items0.contains(y));
                        let j = choose|j: int| 0 <= j < items0.len() && items0[j] == y;
                        assert(items@[j] == y);
                    } else {
                        assert(items@.contains(x)) by {
                            if items@.len() > items0.len() {
                                assert(items@[items0.len() as int] == x);
                            } else {
                                let i = choose|i: int| 0 <= i < items@.len() && items@[i] == x;
                            }
                        }
                    }
                }
                assert forall|i: int| 0 <= i < items@.len() implies #[trigger] in_paths(cpb@, items@[i]) by {
                    if i < items0.len() {
                        assert(items@[i] == items0[i]);
                    }
                }
            }
            k = k + 1;
        }
        proof {
            assert forall|c2: int, k2: int| 0 <= c2 < c + 1 && 0 <= k2 < cpb@[c2].0@.len() implies items@.contains(#[trigger] cpb@[c2].0@[k2]) by {
                if c2 == c {
                    assert(items@.contains(cpb@[c as int].0@[k2]));
                }
            }
        }
        c = c + 1;
    }
    Ok((items, twus))
}

/// `x` is an item of one of the paths.
pub open spec fn in_paths(cpb: Seq<(Vec<ItemId>, Utility)>, x: ItemId) -> bool {
    exists|c: int, k: int| 0 <= c < cpb.len() && 0 <= k < cpb[c].0@.len() && cpb[c].0@[k] == x
}

/// `|v|`.
pub open spec fn abs(v: int) -> int {
    if v < 0 { -v } else { v }
}

/// For each path, its length times the magnitude of its utility, summed.
pub open spec fn paths_weight(cpb: Seq<(Vec<ItemId>, Utility)>) -> int
    decreases cpb.len(),
{
    if cpb.len() == 0 { 0 } else { paths_weight(cpb.drop_last()) + cpb.last().0@.len() * abs(cpb.last().1 as int) }
}

proof fn lemma_paths_weight_prefix(cpb: Seq<(Vec<ItemId>, Utility)>, t: int)
    requires
        0 <= t <= cpb.len(),
    ensures
        0 <= paths_weight(cpb.take(t)) <= paths_weight(cpb),
    decreases cpb.len() - t,
{
    lemma_paths_weight_nonneg(cpb.take(t));
    if t == cpb.len() {
        assert(cpb.take(t) =~= cpb);
    } else {
        assert(cpb.take(t + 1).drop_last() =~= cpb.take(t));
        let l = cpb[t].0@.len() as int;
        let m = abs(cpb[t].1 as int);
        assert(l * m >= 0) by (nonlinear_arith) requires l >= 0, m >= 0;
        lemma_paths_weight_prefix(cpb, t + 1);
    }
}

proof fn lemma_paths_weight_nonneg(cpb: Seq<(Vec<ItemId>, Utility)>)
    ensures
        paths_weight(cpb) >= 0,
    decreases cpb.len(),
{
    if cpb.len() > 0 {
        lemma_paths_weight_nonneg(cpb.drop_last());
        let l = cpb.last().0@.len() as int;
        let m = abs(cpb.last().1 as int);
        assert(l * m >= 0) by (nonlinear_arith) requires l >= 0, m >= 0;
    }
}

/// The items with their key, keeping those whose key reaches `min_utility`.
pub fn keep_reaching(items: &Vec<ItemId>, keys: &Vec<Utility>, min_utility: Utility) -> (r: Vec<(ItemId, Utility)>)
    requires
        items@.len() == keys@.len(),
    ensures
        forall|k: int| 0 <= k < r@.len() ==> (#[trigger] r@[k]).1 >= min_utility
            && exists|i: int| 0 <= i < items@.len() && r@[k] == (items@[i], keys@[i]),
        forall|i: int| 0 <= i < items@.len() && keys@[i] >= min_utility ==> r@.contains((items@[i], keys@[i])),
{
    let mut out: Vec<(ItemId, Utility)> = Vec::new();
    let mut i: usize = 0;
    while i < items.len()
        invariant
            i <= items@.len(),
            items@.len() == keys@.len(),
            forall|k: int| 0 <= k < out@.len() ==> (#[trigger] out@[k]).1 >= min_utility
                && exists|j: int| 0 <= j < items@.len() && out@[k] == (items@[j], keys@[j]),
            forall|j: int| 0 <= j < i && keys@[j] >= min_utility ==> out@.contains((items@[j], keys@[j])),
        decreases items@.len() - i,
    {
        let ghost prev = out@;
        if keys[i] >= min_utility {
            out.push((items[i], keys[i]));
            proof {
                assert(out@[out@.len() - 1] == (items@[i as int], keys@[i as int]));
            }
        }
        proof {
            assert forall|j: int| 0 <= j < i + 1 && keys@[j] >= min_utility implies out@.contains((items@[j], keys@[j])) by {
                if j < i {
                    let k = choose|k: int| 0 <= k < prev.len() && prev[k] == (items@[j], keys@[j]);
                    assert(out@[k] == prev[k]);
                } else {
                    assert(out@[out@.len() - 1] == (items@[j], keys@[j]));
                }
            }
        }
        i = i + 1;
    }
    out
}

/// The items of the given nodes.
pub fn node_items(tree: &UpTree, ids: &Vec<u32>) -> (r: Vec<ItemId>)
    requires
        tree.wf(),
        forall|i: int| 0 <= i < ids@.len() ==> #[trigger] ids@[i] < tree.node_seq().len(),
    ensures
        r@.len() == ids@.len(),
        forall|i: int| 0 <= i < ids@.len() ==> #[trigger] r@[i] == tree.node_seq()[ids@[i] as int].item,
{
    let mut out: Vec<ItemId> = Vec::new();
    let mut i: usize = 0;
    while i < ids.len()
        invariant
            tree.wf(),
            i <= ids@.len(),
            forall|q: int| 0 <= q < ids@.len() ==> #[trigger] ids@[q] < tree.node_seq().len(),
            out@.len() == i,
            forall|q: int| 0 <= q < i ==> #[trigger] out@[q] == tree.node_seq()[ids@[q] as int].item,
        decreases ids@.len() - i,
    {
        let n = tree.node(ids[i]);
        out.push(n.item);
        i = i + 1;
    }
    out
}

/// Bytes of a list of itemsets at eight bytes per item, saturating.
pub fn itemset_bytes(sets: &Vec<Vec<ItemId>>) -> (r: usize)
    ensures
        r == sets_bytes(sets@),
{
    let mut total: usize = 0;
    let mut i: usize = 0;
    while i < sets.len()
        invariant
            i <= sets@.len(),
            total == sets_bytes(sets@.take(i as int)),
        decreases sets@.len() - i,
    {
        proof {
            assert(sets@.take(i + 1).drop_last() =~= sets@.take(i as int));
            assert(sets@.take(i + 1).last() == sets@[i as int]);
            if sets@[i as int]@.len() <= usize::MAX / 8 {
                assert(sets@[i as int]@.len() * 8 <= usize::MAX) by (nonlinear_arith)
                    requires sets@[i as int]@.len() <= usize::MAX / 8;
            }
        }
        let l = sets[i].len();
        let b: usize = if l > usize::MAX / 8 { usize::MAX } else { l * 8 };
        total = total.saturating_add(b);
        i = i + 1;
    }
    proof {
        assert(sets@.take(i as int) =~= sets@);
    }
    total
}

} // verus!
