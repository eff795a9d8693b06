//! B+Tree over a page store.
use vstd::prelude::*;
use crate::key::{Key, KeyView, Cmp, compare_keys, key_lt, key_le, lemma_key_order, copy_bytes};
use crate::node::{Node, NodeView, Record, Value, keys_view, empty_node};
use crate::page::{Page, PageView, stored_node, checksum_ok, unsummed_empty_leaf};
use crate::codec::lemma_node_roundtrip;
use crate::storage::Storage;
use crate::storage::memory::MemoryStorage;
use crate::lock::LockManager;
use crate::insert_proofs::{
    ids_below, ids_within, updated, removed, lemma_replace_child_removed, leaf_with_keys,
    inner_with, lemma_ids_known, lemma_leaf_insert, lemma_leaf_update, lemma_leaf_split,
    lemma_replace_child, lemma_child_split, lemma_inner_split,
};
use crate::delete_proofs::{
    lemma_leaf_remove, lemma_pair_facts, lemma_leaf_iff_height, lemma_node_arity,
    lemma_borrow_right_leaf, lemma_borrow_left_leaf, lemma_merge_leaf, lemma_merge_inner,
    lemma_rotate_inner, rebalance_done, split_shapes,
};
use crate::chain::{
    leaves, chain, chain_kept, lemma_chain_frame, lemma_leaves_pair, lemma_leaves_all_single,
    lemma_leaves_ids, lemma_tree_entries, lemma_leaves_known, lemma_chain_kept_frame,
    lemma_chain_child, lemma_chain_child_split, lemma_leaves_all_concat, lemma_chain_same,
    lemma_chain_rotated, lemma_chain_merged, lemma_chain_kept_trans, lemma_chain_leaf_split,
    entries, leaf_entries, keys_ascending, leafy, lemma_leafy, lemma_entries_prefix,
    lemma_leaf_for_index, lemma_entries_concat,
};
use crate::fill::{
    fits, all_fit, lemma_fit_inner, lemma_fit_child, lemma_fit_frame, lemma_fit_subset, lemma_fit_replace,
    lemma_fit_new_root, lemma_fit_split,
};
use crate::shape::{
    Shape, wf_shape, has_id, lookup, leaf_for, leaf_get, route, in_range, ge_lo, le_hi, child_lo,
    child_hi, child_ids, leaf_ok, sorted_strict, same_on, lemma_route, lemma_route_unique,
    lemma_route_in_child, lemma_key_index, lemma_frame, lemma_child_ids, lemma_has_own_id,
    leftmost, key_index,
};

verus! {

/// A B+Tree mapping keys to byte values, its nodes kept in the pages of `storage`.
pub struct BPlusTree<S: Storage> {
    order: usize,
    pub storage: S,
    lock_manager: LockManager,
    root_page: u64,
    size: usize,
    /// The pages that make up the tree, from the root down.
    shape: Ghost<Shape>,
    /// Height of the tree; leaves have height 0.
    height: Ghost<nat>,
    /// The node stored in each page the tree has written.
    nodes: Ghost<Map<u64, NodeView>>,
    /// The key-value pairs the tree holds.
    contents: Ghost<Map<KeyView, Seq<u8>>>,
}

/// Every node the tree knows of is stored, under its own id, in a page the
/// store holds, and the page carries its checksum (but for the empty root
/// leaf that a new in-memory tree starts with).
pub open spec fn pages_hold<S: Storage>(storage: S, nodes: Map<u64, NodeView>) -> bool {
    forall|x: u64| #[trigger]
        nodes.contains_key(x) ==> {
            &&& storage.page_map().contains_key(x)
            &&& storage.page_map()[x].header.page_id == x
            &&& stored_node(storage.page_map()[x].data, nodes[x])
            &&& x < storage.allocated()
            &&& checksum_ok(storage.page_map()[x]) || storage.page_map()[x] == unsummed_empty_leaf(x)
        }
}

/// The key-value pairs that routing finds in a tree.
pub open spec fn holds(
    t: Shape,
    nodes: Map<u64, NodeView>,
    h: nat,
    contents: Map<KeyView, Seq<u8>>,
) -> bool {
    forall|k: KeyView| #[trigger]
        lookup(t, nodes, k, h) == if contents.contains_key(k) {
            Some(contents[k])
        } else {
            None
        }
}

/// Every page in a well-formed subtree holds a node.
pub proof fn lemma_ids_have_nodes(
    t: Shape,
    nodes: Map<u64, NodeView>,
    lo: Option<KeyView>,
    hi: Option<KeyView>,
    h: nat,
)
    requires
        wf_shape(t, nodes, lo, hi, h),
    ensures
        forall|x: u64| #[trigger] has_id(t, x, h) ==> nodes.contains_key(x),
    decreases h,
{
    match t {
        Shape::Leaf(id) => {},
        Shape::Inner(id, cs) => {
            assert(t->1 == cs);
            assert forall|x: u64| #[trigger] has_id(t, x, h) implies nodes.contains_key(x) by {
                if x != id {
                    let i = choose|i: int| 0 <= i < cs.len() && has_id(cs[i], x, (h - 1) as nat);
                    lemma_ids_have_nodes(
                        cs[i],
                        nodes,
                        child_lo(nodes[id].keys, lo, i),
                        child_hi(nodes[id].keys, hi, i),
                        (h - 1) as nat,
                    );
                }
            }
        },
    }
}

/// Routing finds in the leaf it reaches what the subtree holds.
pub proof fn lemma_lookup_leaf(
    t: Shape,
    nodes: Map<u64, NodeView>,
    lo: Option<KeyView>,
    hi: Option<KeyView>,
    h: nat,
    k: KeyView,
)
    requires
        wf_shape(t, nodes, lo, hi, h),
        in_range(k, lo, hi),
    ensures
        lookup(t, nodes, k, h) == leaf_get(nodes[leaf_for(t, nodes, k, h)], k),
        nodes.contains_key(leaf_for(t, nodes, k, h)),
        nodes[leaf_for(t, nodes, k, h)].is_leaf,
        sorted_strict(nodes[leaf_for(t, nodes, k, h)].keys),
        nodes[leaf_for(t, nodes, k, h)].values.len() == nodes[leaf_for(t, nodes, k, h)].keys.len(),
    decreases h,
{
    match t {
        Shape::Leaf(id) => {},
        Shape::Inner(id, cs) => {
            let keys = nodes[id].keys;
            let i = route(keys, k);
            lemma_route(keys, k);
            lemma_route_in_child(keys, k, lo, hi);
            lemma_lookup_leaf(cs[i], nodes, child_lo(keys, lo, i), child_hi(keys, hi, i), (h - 1) as nat, k);
        },
    }
}

/// The separator and right page of a split, as values.
pub open spec fn split_view(sp: Option<(Key, u64)>) -> Option<(KeyView, u64)> {
    match sp {
        Some((k, id)) => Some((k@, id)),
        None => None,
    }
}

/// What an insertion into subtree `t` leaves behind: pages outside it are
/// untouched, new pages come from `[a0, a1)`, and the rebuilt subtree `t2`
/// (with `tr` to its right, when it split around a separator) holds what
/// `t` held with `key` mapped to `value`.
pub open spec fn insert_done(
    n0: Map<u64, NodeView>,
    n1: Map<u64, NodeView>,
    a0: u64,
    a1: u64,
    t: Shape,
    lo: Option<KeyView>,
    hi: Option<KeyView>,
    h: nat,
    key: KeyView,
    value: Seq<u8>,
    sp: Option<(KeyView, u64)>,
    t2: Shape,
    tr: Shape,
) -> bool {
    &&& a0 <= a1 <= a0 + h + 1
    &&& ids_below(n1, a1)
    &&& forall|x: u64|
        n0.contains_key(x) && !#[trigger] has_id(t, x, h) ==> n1.contains_key(x) && n1[x] == n0[x]
    &&& t2.id() == t.id()
    &&& ids_within(t2, t, h, a0, a1)
    &&& chain_kept(t, n0, h, if sp is None { leaves(t2, h) } else { leaves(t2, h) + leaves(tr, h) }, n1)
    &&& match sp {
        None => {
            &&& wf_shape(t2, n1, lo, hi, h)
            &&& forall|k: KeyView|
                in_range(k, lo, hi) ==> #[trigger] lookup(t2, n1, k, h) == updated(t, n0, h, key, value, k)
        },
        Some((sep, rid)) => {
            &&& tr.id() == rid
            &&& a0 <= rid < a1
            &&& ids_within(tr, t, h, a0, a1)
            &&& forall|x: u64| !(#[trigger] has_id(t2, x, h) && #[trigger] has_id(tr, x, h))
            &&& ge_lo(sep, lo)
            &&& le_hi(sep, hi)
            &&& wf_shape(t2, n1, lo, Some(sep), h)
            &&& wf_shape(tr, n1, Some(sep), hi, h)
            &&& forall|k: KeyView|
                in_range(k, lo, hi) && key_lt(k, sep) ==> #[trigger] lookup(t2, n1, k, h) == updated(
                    t,
                    n0,
                    h,
                    key,
                    value,
                    k,
                )
            &&& forall|k: KeyView|
                in_range(k, lo, hi) && !key_lt(k, sep) ==> #[trigger] lookup(tr, n1, k, h) == updated(
                    t,
                    n0,
                    h,
                    key,
                    value,
                    k,
                )
        },
    }
}

/// The position of the first key above `key`, or the number of keys.
#[verifier::spinoff_prover]
fn find_position(keys: &Vec<Key>, key: &Key) -> (r: usize)
    ensures
        r == route(keys_view(keys@), key@),
{
    let ghost ks = keys_view(keys@);
    let mut i: usize = 0;
    while i < keys.len()
        invariant
            i <= keys@.len(),
            ks == keys_view(keys@),
            forall|j: int| 0 <= j < i ==> !key_lt(key@, #[trigger] ks[j]),
        decreases keys@.len() - i,
    {
        match compare_keys(&keys[i], key) {
            Cmp::Greater => {
                proof {
                    lemma_route_unique(ks, key@, i as int);
                }
                return i;
            },
            _ => {},
        }
        i = i + 1;
    }
    proof {
        lemma_route_unique(ks, key@, i as int);
    }
    i
}

/// The key and value of each record, as values.
pub open spec fn record_pairs(rs: Seq<Record>) -> Seq<(KeyView, Seq<u8>)> {
    rs.map_values(|r: Record| (r.key@, r.value@))
}

/// `es` holds the entries of `m`, each once, in ascending key order.
pub open spec fn lists_in_order(m: Map<KeyView, Seq<u8>>, es: Seq<(KeyView, Seq<u8>)>) -> bool {
    &&& keys_ascending(es)
    &&& forall|i: int| 0 <= i < es.len() ==> m.contains_key((#[trigger] es[i]).0) && m[es[i].0] == es[i].1
    &&& forall|k: KeyView| #[trigger] m.contains_key(k) ==> exists|i: int| 0 <= i < es.len() && (#[trigger] es[i]).0 == k
}

/// Key `k` lies in `[start, end]`.
pub open spec fn in_bounds(k: KeyView, start: KeyView, end: KeyView) -> bool {
    key_le(start, k) && key_le(k, end)
}

/// The entries of `m` whose keys lie in `[start, end]`.
pub open spec fn bounded(m: Map<KeyView, Seq<u8>>, start: KeyView, end: KeyView) -> Map<KeyView, Seq<u8>> {
    Map::new(|k: KeyView| m.contains_key(k) && in_bounds(k, start, end), |k: KeyView| m[k])
}

/// Reading the leaves of the whole tree lists what it holds in key order.
proof fn lemma_contents_in_order(t: Shape, nodes: Map<u64, NodeView>, h: nat, contents: Map<KeyView, Seq<u8>>)
    requires
        wf_shape(t, nodes, None, None, h),
        holds(t, nodes, h, contents),
    ensures
        lists_in_order(contents, entries(leaves(t, h), nodes)),
{
    lemma_tree_entries(t, nodes, None, None, h);
    let es = entries(leaves(t, h), nodes);
    assert forall|i: int| 0 <= i < es.len() implies contents.contains_key((#[trigger] es[i]).0) && contents[es[i].0] == es[i].1 by {
        assert(lookup(t, nodes, es[i].0, h) == Some(es[i].1));
    }
    assert forall|k: KeyView| #[trigger] contents.contains_key(k) implies exists|i: int| 0 <= i < es.len() && (#[trigger] es[i]).0 == k by {
        assert(lookup(t, nodes, k, h) is Some);
    }
}

/// A range search that has read the first `cur` of the entries `es` of `m`
/// has collected in `rp`, in key order, each of them with a key in `[start, end]`.
spec fn range_so_far(
    rp: Seq<(KeyView, Seq<u8>)>,
    es: Seq<(KeyView, Seq<u8>)>,
    m: Map<KeyView, Seq<u8>>,
    cur: int,
    start: KeyView,
    end: KeyView,
) -> bool {
    &&& keys_ascending(rp)
    &&& forall|a: int|
        0 <= a < rp.len() ==> in_bounds((#[trigger] rp[a]).0, start, end) && m.contains_key(rp[a].0) && m[rp[a].0]
            == rp[a].1
    &&& forall|a: int, q: int| 0 <= a < rp.len() && cur <= q < es.len() ==> key_lt((#[trigger] rp[a]).0, (#[trigger] es[q]).0)
    &&& forall|q: int|
        0 <= q < cur && in_bounds((#[trigger] es[q]).0, start, end) ==> exists|a: int| 0 <= a < rp.len() && #[trigger] rp[a] == es[q]
}

proof fn lemma_ascending_at(es: Seq<(KeyView, Seq<u8>)>, a: int, b: int)
    requires
        keys_ascending(es),
        0 <= a < b < es.len(),
    ensures
        key_lt(es[a].0, es[b].0),
{
}

/// A range search whose unread entries all lie outside `[start, end]` is done.
proof fn lemma_range_done(
    rp: Seq<(KeyView, Seq<u8>)>,
    es: Seq<(KeyView, Seq<u8>)>,
    m: Map<KeyView, Seq<u8>>,
    cur: int,
    start: KeyView,
    end: KeyView,
)
    requires
        range_so_far(rp, es, m, cur, start, end),
        lists_in_order(m, es),
        0 <= cur <= es.len(),
        forall|q: int| cur <= q < es.len() ==> !in_bounds((#[trigger] es[q]).0, start, end),
    ensures
        lists_in_order(bounded(m, start, end), rp),
{
    let b = bounded(m, start, end);
    assert forall|i: int| 0 <= i < rp.len() implies b.contains_key((#[trigger] rp[i]).0) && b[rp[i].0] == rp[i].1 by {}
    assert forall|k: KeyView| #[trigger] b.contains_key(k) implies exists|i: int| 0 <= i < rp.len() && (#[trigger] rp[i]).0 == k by {
        let q = choose|q: int| 0 <= q < es.len() && (#[trigger] es[q]).0 == k;
        let a = choose|a: int| 0 <= a < rp.len() && #[trigger] rp[a] == es[q];
        assert(rp[a].0 == k);
    }
}

/// The nodes after child `j` of internal node `pid` takes the first entry of
/// its right sibling: for leaves the entry moves and the separator becomes
/// the sibling's new first key; for internal nodes the separator moves down
/// with the sibling's first child and the sibling's first key moves up.
pub open spec fn borrowed_right(n0: Map<u64, NodeView>, pid: u64, j: int) -> Map<u64, NodeView> {
    let p = n0[pid];
    let cid = p.children[j];
    let rid = p.children[j + 1];
    let c = n0[cid];
    let r = n0[rid];
    if c.is_leaf {
        n0.insert(pid, NodeView { keys: p.keys.update(j, r.keys[1]), ..p }).insert(
            cid,
            NodeView { keys: c.keys.push(r.keys[0]), values: c.values.push(r.values[0]), ..c },
        ).insert(rid, NodeView { keys: r.keys.drop_first(), values: r.values.drop_first(), ..r })
    } else {
        n0.insert(pid, NodeView { keys: p.keys.update(j, r.keys[0]), ..p }).insert(
            cid,
            NodeView { keys: c.keys.push(p.keys[j]), children: c.children.push(r.children[0]), ..c },
        ).insert(rid, NodeView { keys: r.keys.drop_first(), children: r.children.drop_first(), ..r })
    }
}

/// The nodes after child `pos` of internal node `pid` takes the last entry
/// of its left sibling, the mirror of `borrowed_right`.
pub open spec fn borrowed_left(n0: Map<u64, NodeView>, pid: u64, pos: int) -> Map<u64, NodeView> {
    let p = n0[pid];
    let cid = p.children[pos];
    let lid = p.children[pos - 1];
    let c = n0[cid];
    let l = n0[lid];
    if c.is_leaf {
        n0.insert(pid, NodeView { keys: p.keys.update(pos - 1, l.keys.last()), ..p }).insert(
            cid,
            NodeView { keys: c.keys.insert(0, l.keys.last()), values: c.values.insert(0, l.values.last()), ..c },
        ).insert(lid, NodeView { keys: l.keys.drop_last(), values: l.values.drop_last(), ..l })
    } else {
        n0.insert(pid, NodeView { keys: p.keys.update(pos - 1, l.keys.last()), ..p }).insert(
            cid,
            NodeView {
                keys: c.keys.insert(0, p.keys[pos - 1]),
                children: c.children.insert(0, l.children.last()),
                ..c
            },
        ).insert(lid, NodeView { keys: l.keys.drop_last(), children: l.children.drop_last(), ..l })
    }
}

/// The nodes after children `j` and `j + 1` of internal node `pid` are
/// joined into the page of child `j`; the parent loses separator `j` and
/// child `j + 1`.
pub open spec fn merged(n0: Map<u64, NodeView>, pid: u64, j: int) -> Map<u64, NodeView> {
    let p = n0[pid];
    let lid = p.children[j];
    let rid = p.children[j + 1];
    let l = n0[lid];
    let r = n0[rid];
    let pm = NodeView { keys: p.keys.remove(j), children: p.children.remove(j + 1), ..p };
    if l.is_leaf {
        n0.insert(pid, pm).insert(
            lid,
            NodeView { keys: l.keys + r.keys, values: l.values + r.values, next_leaf: r.next_leaf, ..l },
        )
    } else {
        n0.insert(pid, pm).insert(
            lid,
            NodeView { keys: l.keys.push(p.keys[j]) + r.keys, children: l.children + r.children, ..l },
        )
    }
}

/// The nodes after child `pos` of internal node `pid` is rebalanced: it
/// borrows from its right sibling if that one has more than `min` keys, else
/// from its left sibling if that one has, else it is merged with its right
/// sibling, or with its left one when it is the last child; a lone child is
/// left as it is.
pub open spec fn rebalanced(n0: Map<u64, NodeView>, pid: u64, pos: int, min: int) -> Map<u64, NodeView> {
    let p = n0[pid];
    let n = p.children.len();
    if pos + 1 < n && n0[p.children[pos + 1]].keys.len() > min {
        borrowed_right(n0, pid, pos)
    } else if pos > 0 && n0[p.children[pos - 1]].keys.len() > min {
        borrowed_left(n0, pid, pos)
    } else if pos + 1 < n {
        merged(n0, pid, pos)
    } else if pos > 0 {
        merged(n0, pid, pos - 1)
    } else {
        n0
    }
}

/// The position of `key` among `keys`, if it is there.
fn find_key(keys: &Vec<Key>, key: &Key) -> (r: Option<usize>)
    ensures
        match r {
            Some(i) => i < keys@.len() && keys_view(keys@)[i as int] == key@,
            None => !keys_view(keys@).contains(key@),
        },
{
    let ghost ks = keys_view(keys@);
    let mut i: usize = 0;
    while i < keys.len()
        invariant
            i <= keys@.len(),
            ks == keys_view(keys@),
            forall|j: int| 0 <= j < i ==> #[trigger] ks[j] != key@,
        decreases keys@.len() - i,
    {
        if compare_keys(&keys[i], key) == Cmp::Equal {
            return Some(i);
        }
        i = i + 1;
    }
    None
}

impl<S: Storage> View for BPlusTree<S> {
    type V = Map<KeyView, Seq<u8>>;

    closed spec fn view(&self) -> Map<KeyView, Seq<u8>> {
        self.contents@
    }
}

impl<S: Storage> BPlusTree<S> {
    /// The tree's invariant: its pages form a well-formed B+tree rooted at
    /// `root_page` that holds exactly the key-value pairs of its view.
    pub closed spec fn wf(&self) -> bool {
        &&& pages_hold(self.storage, self.nodes@)
        &&& self.shape@.id() == self.root_page
        &&& wf_shape(self.shape@, self.nodes@, None, None, self.height@)
        &&& holds(self.shape@, self.nodes@, self.height@, self.contents@)
        &&& self.contents@.dom().finite()
        &&& self.size == self.contents@.len()
        &&& self.height@ > 0 ==> self.order >= 1
        &&& chain(leaves(self.shape@, self.height@), self.nodes@, None)
        &&& self.order >= 3 ==> all_fit(self.shape@, self.nodes@, self.height@, self.order as int, self.order - 1)
    }

    /// Every node of the tree is within the size its order allows: a leaf
    /// holds fewer than `order - 1` keys, an internal node at most `order - 1`.
    pub closed spec fn within_order(&self) -> bool {
        all_fit(self.shape@, self.nodes@, self.height@, self.order as int, self.order - 1)
    }

    /// Every node is below the size at which an insert splits it: each
    /// holds fewer than `order - 1` keys.
    pub closed spec fn below_split_size(&self) -> bool {
        all_fit(self.shape@, self.nodes@, self.height@, self.order as int, self.order - 2)
    }

    /// The order the tree was made with.
    pub closed spec fn order_spec(&self) -> usize {
        self.order
    }

    /// The page of the root node.
    pub closed spec fn root_spec(&self) -> u64 {
        self.root_page
    }

    /// The number of records the tree counts.
    pub closed spec fn size_spec(&self) -> usize {
        self.size
    }

    /// The height of the tree.
    pub closed spec fn height_spec(&self) -> nat {
        self.height@
    }

    /// The number of page ids the store has handed out.
    pub closed spec fn allocated_spec(&self) -> u64 {
        self.storage.allocated()
    }

    /// The leaf page whose key range holds `k`.
    pub closed spec fn leaf_of(&self, k: KeyView) -> u64 {
        leaf_for(self.shape@, self.nodes@, k, self.height@)
    }

    /// The first leaf page.
    pub closed spec fn first_leaf_spec(&self) -> u64 {
        leftmost(self.shape@, self.height@)
    }

    /// The pages the store holds.
    pub closed spec fn pages_spec(&self) -> Map<u64, PageView> {
        self.storage.page_map()
    }

    /// The pages as the store last made them durable.
    pub closed spec fn synced_spec(&self) -> Map<u64, PageView> {
        self.storage.synced()
    }

    /// The leaf pages, left to right.
    pub closed spec fn leaf_pages(&self) -> Seq<u64> {
        leaves(self.shape@, self.height@)
    }

    /// The node the tree keeps in page `id`.
    pub closed spec fn node_at(&self, id: u64) -> NodeView {
        self.nodes@[id]
    }

    /// The records of the tree, leaf after leaf: the order of `scan`.
    pub closed spec fn records(&self) -> Seq<(KeyView, Seq<u8>)> {
        entries(self.leaf_pages(), self.nodes@)
    }

    /// The records of the first `i` leaves.
    pub closed spec fn records_before(&self, i: int) -> Seq<(KeyView, Seq<u8>)> {
        entries(self.leaf_pages().subrange(0, i), self.nodes@)
    }

    /// Everything a caller sees of the tree is as in `other`: contents,
    /// order, root, size, height, page-id counter and pages.
    pub open spec fn reads_as(&self, other: &Self) -> bool {
        &&& self@ == other@
        &&& self.order_spec() == other.order_spec()
        &&& self.root_spec() == other.root_spec()
        &&& self.size_spec() == other.size_spec()
        &&& self.height_spec() == other.height_spec()
        &&& self.allocated_spec() == other.allocated_spec()
        &&& self.pages_spec() == other.pages_spec()
    }

    /// Everything the tree's behaviour depends on is the same in both.
    pub closed spec fn same_state(&self, other: &Self) -> bool {
        &&& self.order == other.order
        &&& self.root_page == other.root_page
        &&& self.size == other.size
        &&& self.shape == other.shape
        &&& self.height == other.height
        &&& self.nodes == other.nodes
        &&& self.contents == other.contents
        &&& self.storage.page_map() == other.storage.page_map()
        &&& self.storage.allocated() == other.storage.allocated()
    }

    /// Reads the page with the given id and the node it stores.
    fn read_node(&mut self, page_id: u64) -> (r: (Page, Node))
        requires
            pages_hold(old(self).storage, old(self).nodes@),
            old(self).nodes@.contains_key(page_id),
        ensures
            final(self).same_state(old(self)),
            final(self).reads_as(old(self)),
            r.0@ == old(self).storage.page_map()[page_id],
            r.0@.header.page_id == page_id,
            r.1@ == old(self).nodes@[page_id],
    {
        let _guard = self.lock_manager.read_lock(page_id);
        let page = self.storage.read_page(page_id).unwrap();
        let node = page.get_node().unwrap();
        (page, node)
    }

    /// Stores the node in the page, checksums it and writes it to the store.
    fn write_node(&mut self, page: Page, node: &Node)
        requires
            pages_hold(old(self).storage, old(self).nodes@),
            page@.header.page_id < old(self).storage.allocated(),
        ensures
            pages_hold(final(self).storage, final(self).nodes@),
            final(self).nodes@ == old(self).nodes@.insert(page@.header.page_id, node@),
            final(self).storage.allocated() == old(self).storage.allocated(),
            final(self).order == old(self).order,
            final(self).root_page == old(self).root_page,
            final(self).size == old(self).size,
            final(self).shape == old(self).shape,
            final(self).height == old(self).height,
            final(self).contents == old(self).contents,
    {
        let mut page = page;
        page.set_node(node);
        page.update_checksum();
        self.storage.write_page(&page);
        self.nodes = Ghost(self.nodes@.insert(page.header.page_id, node@));
        assert forall|x: u64| #[trigger] self.nodes@.contains_key(x) implies {
            &&& self.storage.page_map().contains_key(x)
            &&& self.storage.page_map()[x].header.page_id == x
            &&& stored_node(self.storage.page_map()[x].data, self.nodes@[x])
            &&& x < self.storage.allocated()
            &&& checksum_ok(self.storage.page_map()[x]) || self.storage.page_map()[x] == unsummed_empty_leaf(x)
        } by {
            if x != page.header.page_id {
                assert(old(self).nodes@.contains_key(x));
            }
        }
    }

    /// A new tree over `storage`: an empty root leaf in a newly allocated
    /// page, checksummed, written and flushed.
    #[verifier::spinoff_prover]
    pub fn open(storage: S, order: usize) -> (r: Self)
        requires
            storage.allocated() < u64::MAX,
        ensures
            r.wf(),
            r@ == Map::<KeyView, Seq<u8>>::empty(),
            r.order_spec() == order,
            r.height_spec() == 0,
            r.root_spec() == storage.allocated(),
            r.allocated_spec() == storage.allocated() + 1,
            order >= 3 ==> r.below_split_size(),
    {
        let mut storage = storage;
        let root_page = storage.alloc_page();
        let root_node = Node::new_leaf();
        let mut page = Page::new_leaf(root_page);
        page.set_node(&root_node);
        page.update_checksum();
        storage.write_page(&page);
        storage.flush();
        let ghost nodes = Map::<u64, NodeView>::empty().insert(root_page, root_node@);
        let r = BPlusTree {
            order,
            storage,
            lock_manager: LockManager::new(),
            root_page,
            size: 0,
            shape: Ghost(Shape::Leaf(root_page)),
            height: Ghost(0),
            nodes: Ghost(nodes),
            contents: Ghost(Map::empty()),
        };
        proof {
            assert(leaf_ok(root_node@, None, None));
            assert forall|k: KeyView| #[trigger] lookup(r.shape@, r.nodes@, k, 0) == if r.contents@.contains_key(k) {
                Some(r.contents@[k])
            } else {
                None
            } by {
                assert(!root_node@.keys.contains(k));
            }
            assert(leaves(r.shape@, 0) == seq![root_page]);
        }
        r
    }

    /// Number of records.
    pub fn len(&self) -> (r: usize)
        ensures
            r == self.size_spec(),
            self.wf() ==> r == self@.len(),
    {
        self.size
    }

    /// Whether the tree holds no record.
    pub fn is_empty(&self) -> (r: bool)
        ensures
            r == (self.size_spec() == 0),
            self.wf() ==> r == (self@.len() == 0),
    {
        self.size == 0
    }

    /// The page id of the root node.
    pub fn root_page(&self) -> (r: u64)
        ensures
            r == self.root_spec(),
    {
        self.root_page
    }

    /// Flushes the store: every page the tree is kept in becomes durable.
    pub fn flush(&mut self)
        ensures
            old(self).wf() ==> final(self).wf(),
            final(self).same_state(old(self)),
            final(self).reads_as(old(self)),
            final(self)@ == old(self)@,
            final(self).root_spec() == old(self).root_spec(),
            final(self).pages_spec() == old(self).pages_spec(),
            final(self).allocated_spec() == old(self).allocated_spec(),
            final(self).synced_spec() == final(self).pages_spec(),
    {
        self.storage.flush();
    }

    /// The page of the leaf whose key range holds `key`.
    #[verifier::spinoff_prover]
    pub fn find_leaf(&mut self, key: &Key) -> (r: u64)
        requires
            old(self).wf(),
        ensures
            final(self).wf(),
            final(self).same_state(old(self)),
            final(self).reads_as(old(self)),
            r == old(self).leaf_of(key@),
            old(self).leaf_pages().contains(r),
            old(self).node_at(r).is_leaf,
            old(self)@.contains_key(key@) <==> old(self).node_at(r).keys.contains(key@),
    {
        let ghost root = self.shape@;
        let ghost hh = self.height@;
        let ghost nodes = self.nodes@;
        let mut page_id = self.root_page;
        let ghost mut t = root;
        let ghost mut lo: Option<KeyView> = None;
        let ghost mut hi: Option<KeyView> = None;
        let ghost mut h = hh;
        loop
            invariant
                self.wf(),
                self.same_state(old(self)),
                nodes == self.nodes@,
                wf_shape(t, nodes, lo, hi, h),
                t.id() == page_id,
                in_range(key@, lo, hi),
                leaf_for(root, nodes, key@, hh) == leaf_for(t, nodes, key@, h),
                root == self.shape@,
                hh == self.height@,
            decreases h,
        {
            let (_page, node) = self.read_node(page_id);
            if node.is_leaf() {
                proof {
                    let i = old(self).lemma_leaf_of(key@);
                    assert(old(self).leaf_pages()[i] == page_id);
                }
                return page_id;
            }
            let pos = find_position(&node.keys, key);
            proof {
                let keys = nodes[page_id].keys;
                lemma_route(keys, key@);
                lemma_route_in_child(keys, key@, lo, hi);
                let cs = t->1;
                assert(child_ids(cs)[pos as int] == cs[pos as int].id());
                lo = child_lo(keys, lo, pos as int);
                hi = child_hi(keys, hi, pos as int);
                t = cs[pos as int];
                h = (h - 1) as nat;
            }
            page_id = node.children[pos];
        }
    }

    /// The fields an insertion or deletion below the root leaves alone.
    pub closed spec fn same_frame(&self, other: &Self) -> bool {
        &&& self.order == other.order
        &&& self.root_page == other.root_page
        &&& self.size == other.size
        &&& self.shape == other.shape
        &&& self.height == other.height
        &&& self.contents == other.contents
    }

    /// Splits a full leaf in two; the upper half moves to a new page.
    #[verifier::spinoff_prover]
    fn split_leaf(&mut self, page_id: u64, Ghost(lo): Ghost<Option<KeyView>>, Ghost(hi): Ghost<Option<KeyView>>) -> (r: (Key, u64))
        requires
            pages_hold(old(self).storage, old(self).nodes@),
            old(self).nodes@.contains_key(page_id),
            leaf_ok(old(self).nodes@[page_id], lo, hi),
            old(self).nodes@[page_id].keys.len() >= 1,
            old(self).storage.allocated() < u64::MAX,
        ensures
            pages_hold(final(self).storage, final(self).nodes@),
            final(self).same_frame(old(self)),
            r.1 == old(self).storage.allocated(),
            final(self).storage.allocated() == r.1 + 1,
            ({
                let n = old(self).nodes@[page_id];
                let len = n.keys.len() as int;
                let mid = len / 2;
                let left = NodeView {
                    keys: n.keys.subrange(0, mid),
                    values: n.values.subrange(0, mid),
                    next_leaf: Some(r.1),
                    ..n
                };
                let right = NodeView {
                    is_leaf: true,
                    keys: n.keys.subrange(mid, len),
                    children: Seq::empty(),
                    values: n.values.subrange(mid, len),
                    next_leaf: n.next_leaf,
                    prev_leaf: Some(page_id),
                };
                &&& r.0@ == n.keys[mid]
                &&& final(self).nodes@ == old(self).nodes@.insert(page_id, left).insert(r.1, right)
            }),
    {
        let (left_page, mut left_node) = self.read_node(page_id);
        let ghost n = left_node@;
        let mid = left_node.keys.len() / 2;
        let right_keys: Vec<Key> = left_node.keys.split_off(mid);
        let right_values: Vec<Value> = left_node.values.split_off(mid);
        let promote_key = right_keys[0].duplicate();
        let right_page_id = self.storage.alloc_page();
        let right_page = Page::new_leaf(right_page_id);
        let mut right_node = Node::new_leaf();
        right_node.keys = right_keys;
        right_node.values = right_values;
        right_node.prev_leaf = Some(page_id);
        right_node.next_leaf = left_node.next_leaf;
        left_node.next_leaf = Some(right_page_id);
        proof {
            let len = n.keys.len() as int;
            assert(left_node@.keys =~= n.keys.subrange(0, mid as int));
            assert(left_node@.values =~= n.values.subrange(0, mid as int));
            assert(right_node@.keys =~= n.keys.subrange(mid as int, len));
            assert(right_node@.values =~= n.values.subrange(mid as int, len));
            assert(right_keys@[0]@ == n.keys[mid as int]);
        }
        self.write_node(left_page, &left_node);
        self.write_node(right_page, &right_node);
        (promote_key, right_page_id)
    }

    /// Splits a full internal node in two around its middle separator, which
    /// is handed up; the upper half moves to a new page.
    #[verifier::spinoff_prover]
    #[verifier::rlimit(50)]
    fn split_internal(
        &mut self,
        page_id: u64,
        Ghost(t): Ghost<Shape>,
        Ghost(lo): Ghost<Option<KeyView>>,
        Ghost(hi): Ghost<Option<KeyView>>,
        Ghost(h): Ghost<nat>,
    ) -> (r: (Key, u64, Ghost<Shape>, Ghost<Shape>))
        requires
            pages_hold(old(self).storage, old(self).nodes@),
            wf_shape(t, old(self).nodes@, lo, hi, h),
            t is Inner,
            t.id() == page_id,
            old(self).nodes@[page_id].keys.len() >= 1,
            old(self).storage.allocated() < u64::MAX,
        ensures
            pages_hold(final(self).storage, final(self).nodes@),
            final(self).same_frame(old(self)),
            r.1 == old(self).storage.allocated(),
            final(self).storage.allocated() == r.1 + 1,
            ({
                let n0 = old(self).nodes@;
                let n1 = final(self).nodes@;
                let sep = r.0@;
                let tl = r.2@;
                let tr = r.3@;
                &&& tl.id() == page_id
                &&& tr.id() == r.1
                &&& ge_lo(sep, lo)
                &&& le_hi(sep, hi)
                &&& wf_shape(tl, n1, lo, Some(sep), h)
                &&& wf_shape(tr, n1, Some(sep), hi, h)
                &&& forall|k: KeyView|
                    in_range(k, lo, hi) && key_lt(k, sep) ==> #[trigger] lookup(tl, n1, k, h) == lookup(t, n0, k, h)
                &&& forall|k: KeyView|
                    in_range(k, lo, hi) && !key_lt(k, sep) ==> #[trigger] lookup(tr, n1, k, h) == lookup(t, n0, k, h)
                &&& forall|x: u64| #[trigger] has_id(tl, x, h) ==> has_id(t, x, h)
                &&& forall|x: u64| #[trigger] has_id(tr, x, h) ==> has_id(t, x, h) || x == r.1
                &&& forall|x: u64| !(#[trigger] has_id(tl, x, h) && #[trigger] has_id(tr, x, h))
                &&& forall|x: u64| n0.contains_key(x) && x != page_id ==> n1.contains_key(x) && #[trigger] n1[x] == n0[x]
                &&& leaves(tl, h) + leaves(tr, h) == leaves(t, h)
                &&& ({
                    let n = n0[page_id];
                    let len = n.keys.len() as int;
                    let mid = len / 2;
                    &&& sep == n.keys[mid]
                    &&& tl == Shape::Inner(page_id, t->1.subrange(0, mid + 1))
                    &&& tr == Shape::Inner(r.1, t->1.subrange(mid + 1, t->1.len() as int))
                    &&& n1 == n0.insert(page_id, inner_with(n, n.keys.subrange(0, mid), n.children.subrange(0, mid + 1)))
                        .insert(
                        r.1,
                        inner_with(
                            empty_node(false),
                            n.keys.subrange(mid + 1, len),
                            n.children.subrange(mid + 1, len + 1),
                        ),
                    )
                })
            }),
    {
        let ghost n0 = self.nodes@;
        let ghost cs = t->1;
        let (left_page, mut left_node) = self.read_node(page_id);
        let ghost n = left_node@;
        let mid = left_node.keys.len() / 2;
        let promote_key = left_node.keys.remove(mid);
        let right_keys: Vec<Key> = left_node.keys.split_off(mid);
        let right_children: Vec<u64> = left_node.children.split_off(mid + 1);
        let right_page_id = self.storage.alloc_page();
        let right_page = Page::new_internal(right_page_id);
        let mut right_node = Node::new_internal();
        right_node.keys = right_keys;
        right_node.children = right_children;
        proof {
            let len = n.keys.len() as int;
            assert(!n0.contains_key(right_page_id));
            lemma_ids_known(t, n0, lo, hi, h);
            lemma_inner_split(page_id, cs, n0, lo, hi, h, right_page_id, mid as int, empty_node(false));
            assert(left_node@.keys =~= n.keys.subrange(0, mid as int));
            assert(right_node@.keys =~= n.keys.subrange(mid + 1, len));
            assert(left_node@.children =~= n.children.subrange(0, mid + 1));
            assert(right_node@.children =~= n.children.subrange(mid + 1, len + 1));
            assert(left_node@ == inner_with(n, n.keys.subrange(0, mid as int), n.children.subrange(0, mid + 1)));
            assert(right_node@ == inner_with(empty_node(false), n.keys.subrange(mid + 1, len), n.children.subrange(mid + 1, len + 1)));
        }
        self.write_node(left_page, &left_node);
        self.write_node(right_page, &right_node);
        proof {
            let len = n.keys.len() as int;
            assert(self.nodes@ == n0.insert(page_id, left_node@).insert(right_page_id, right_node@));
        }
        let ghost tl = Shape::Inner(page_id, cs.subrange(0, mid + 1));
        let ghost tr = Shape::Inner(right_page_id, cs.subrange(mid + 1, cs.len() as int));
        proof {
            lemma_leaves_all_concat(cs.subrange(0, mid + 1), cs.subrange(mid + 1, cs.len() as int), (h - 1) as nat);
            assert(cs.subrange(0, mid + 1) + cs.subrange(mid + 1, cs.len() as int) =~= cs);
        }
        (promote_key, right_page_id, Ghost(tl), Ghost(tr))
    }

    /// Inserts into a leaf: replaces the value of a key it holds, or adds the
    /// key in order and splits the leaf once it is full.
    #[verifier::spinoff_prover]
    fn insert_into_leaf(
        &mut self,
        page_id: u64,
        node: Node,
        record: Record,
        Ghost(lo): Ghost<Option<KeyView>>,
        Ghost(hi): Ghost<Option<KeyView>>,
    ) -> (r: (Option<(Key, u64)>, bool, Ghost<Shape>, Ghost<Shape>))
        requires
            pages_hold(old(self).storage, old(self).nodes@),
            old(self).nodes@.contains_key(page_id),
            node@ == old(self).nodes@[page_id],
            leaf_ok(node@, lo, hi),
            in_range(record.key@, lo, hi),
            old(self).storage.allocated() < u64::MAX,
            old(self).order >= 1,
        ensures
            pages_hold(final(self).storage, final(self).nodes@),
            final(self).same_frame(old(self)),
            insert_done(
                old(self).nodes@,
                final(self).nodes@,
                old(self).storage.allocated(),
                final(self).storage.allocated(),
                Shape::Leaf(page_id),
                lo,
                hi,
                0,
                record.key@,
                record.value@,
                split_view(r.0),
                r.2@,
                r.3@,
            ),
            r.1 == (lookup(Shape::Leaf(page_id), old(self).nodes@, record.key@, 0) is None),
            r.0 is Some <==> (r.1 && node@.keys.len() + 1 >= old(self).order - 1),
            r.0 matches Some((_, rid)) ==> rid == old(self).storage.allocated() && final(self).storage.allocated()
                == old(self).storage.allocated() + 1,
            r.0 is None ==> final(self).storage.allocated() == old(self).storage.allocated(),
            r.0 matches Some((_, rid)) ==> final(self).nodes@[page_id].keys.len() == (final(self).nodes@[page_id].keys.len()
                + final(self).nodes@[rid].keys.len()) / 2,
            forall|cap: int|
                old(self).order >= 3 && fits(node@, old(self).order as int, cap) ==> #[trigger] all_fit(
                    r.2@,
                    final(self).nodes@,
                    0,
                    old(self).order as int,
                    cap,
                ) && (r.0 is Some ==> all_fit(r.3@, final(self).nodes@, 0, old(self).order as int, cap)),
    {
        let ghost n0 = self.nodes@;
        let ghost a0 = self.storage.allocated();
        let ghost key = record.key@;
        let ghost value = record.value@;
        let ghost t = Shape::Leaf(page_id);
        let mut node = node;
        let ghost n = node@;
        let pos = find_position(&node.keys, &record.key);
        proof {
            lemma_route(n.keys, key);
            assert(n.keys.len() == node.keys@.len());
        }
        if pos > 0 && compare_keys(&node.keys[pos - 1], &record.key) == Cmp::Equal {
            proof {
                assert(n.keys[pos - 1] == node.keys@[pos - 1]@);
                lemma_leaf_update(n, lo, hi, pos - 1, key, value);
            }
            node.values[pos - 1] = record.value;
            proof {
                assert(node@.values =~= n.values.update(pos - 1, value));
                assert(node@ == leaf_with_keys(n, n.keys, n.values.update(pos - 1, value)));
            }
            let page = Page::new_leaf(page_id);
            self.write_node(page, &node);
            proof {
                assert(self.nodes@[page_id] == node@);
                assert forall|k: KeyView| in_range(k, lo, hi) implies #[trigger] lookup(t, self.nodes@, k, 0)
                    == updated(t, n0, 0, key, value, k) by {
                    assert(leaf_get(node@, k) == leaf_get(leaf_with_keys(n, n.keys, n.values.update(pos - 1, value)), k));
                }
                assert forall|x: u64| #[trigger] has_id(t, x, 0) implies has_id(t, x, 0) || (a0 <= x < a0) by {}
            }
            return (None, false, Ghost(t), Ghost(t));
        }
        proof {
            if pos > 0 {
                assert(n.keys[pos - 1] == node.keys@[pos - 1]@);
            }
            lemma_leaf_insert(n, lo, hi, pos as int, key, value);
        }
        node.keys.insert(pos, record.key);
        node.values.insert(pos, record.value);
        let ghost n2 = leaf_with_keys(n, n.keys.insert(pos as int, key), n.values.insert(pos as int, value));
        proof {
            assert(node@.keys =~= n.keys.insert(pos as int, key));
            assert(node@.values =~= n.values.insert(pos as int, value));
            assert(node@ == n2);
        }
        let page = Page::new_leaf(page_id);
        self.write_node(page, &node);
        if node.is_full(self.order) {
            let ghost n1 = self.nodes@;
            proof {
                assert(n1[page_id] == n2);
            }
            let (sep, rid) = self.split_leaf(page_id, Ghost(lo), Ghost(hi));
            proof {
                let len = n2.keys.len() as int;
                let mid = len / 2;
                lemma_leaf_split(n2, lo, hi, mid);
                let left = leaf_with_keys(n2, n2.keys.subrange(0, mid), n2.values.subrange(0, mid));
                let right = leaf_with_keys(n2, n2.keys.subrange(mid, len), n2.values.subrange(mid, len));
                let nf = self.nodes@;
                assert(leaf_ok(nf[page_id], lo, Some(sep@)));
                assert(leaf_ok(nf[rid], Some(sep@), hi));
                assert forall|k: KeyView| key_lt(k, sep@) implies #[trigger] leaf_get(nf[page_id], k) == leaf_get(n2, k) by {
                    assert(leaf_get(nf[page_id], k) == leaf_get(left, k));
                }
                assert forall|k: KeyView| !key_lt(k, sep@) implies #[trigger] leaf_get(nf[rid], k) == leaf_get(n2, k) by {
                    assert(leaf_get(nf[rid], k) == leaf_get(right, k));
                }
                assert(ids_within(Shape::Leaf(page_id), t, 0, a0, self.storage.allocated()));
                assert(ids_within(Shape::Leaf(rid), t, 0, a0, self.storage.allocated()));
                lemma_chain_leaf_split(page_id, rid, n0, nf);
            }
            return (Some((sep, rid)), true, Ghost(t), Ghost(Shape::Leaf(rid)));
        }
        proof {
            assert(self.nodes@[page_id] == n2);
            assert(ids_within(t, t, 0, a0, self.storage.allocated()));
        }
        (None, true, Ghost(t), Ghost(t))
    }

    /// Inserts below page `page_id`, the root of subtree `t`; hands up the
    /// separator and new page when the subtree's root split.
    #[verifier::spinoff_prover]
    #[verifier::rlimit(100)]
    fn insert_recursive(
        &mut self,
        page_id: u64,
        record: Record,
        Ghost(t): Ghost<Shape>,
        Ghost(lo): Ghost<Option<KeyView>>,
        Ghost(hi): Ghost<Option<KeyView>>,
        Ghost(h): Ghost<nat>,
    ) -> (r: (Option<(Key, u64)>, bool, Ghost<Shape>, Ghost<Shape>))
        requires
            pages_hold(old(self).storage, old(self).nodes@),
            wf_shape(t, old(self).nodes@, lo, hi, h),
            t.id() == page_id,
            in_range(record.key@, lo, hi),
            old(self).storage.allocated() + h + 1 <= u64::MAX,
            old(self).order >= 1,
        ensures
            pages_hold(final(self).storage, final(self).nodes@),
            final(self).same_frame(old(self)),
            insert_done(
                old(self).nodes@,
                final(self).nodes@,
                old(self).storage.allocated(),
                final(self).storage.allocated(),
                t,
                lo,
                hi,
                h,
                record.key@,
                record.value@,
                split_view(r.0),
                r.2@,
                r.3@,
            ),
            r.1 == (lookup(t, old(self).nodes@, record.key@, h) is None),
            old(self).order >= 3 && all_fit(t, old(self).nodes@, h, old(self).order as int, old(self).order - 1)
                ==> all_fit(r.2@, final(self).nodes@, h, old(self).order as int, old(self).order - 1) && (r.0 is Some
                ==> all_fit(r.3@, final(self).nodes@, h, old(self).order as int, old(self).order - 1)),
            old(self).order >= 3 && all_fit(t, old(self).nodes@, h, old(self).order as int, old(self).order - 2)
                ==> all_fit(r.2@, final(self).nodes@, h, old(self).order as int, old(self).order - 2) && (r.0 is Some
                ==> all_fit(r.3@, final(self).nodes@, h, old(self).order as int, old(self).order - 2)),
            t is Leaf ==> (r.0 is Some <==> (r.1 && old(self).nodes@[page_id].keys.len() + 1 >= old(self).order - 1)),
            t is Leaf ==> (r.0 matches Some((_, rid)) ==> rid == old(self).storage.allocated()
                && final(self).storage.allocated() == old(self).storage.allocated() + 1),
            t is Leaf && r.0 is None ==> final(self).storage.allocated() == old(self).storage.allocated(),
            t is Leaf ==> (r.0 matches Some((_, rid)) ==> final(self).nodes@[page_id].keys.len() == (
            final(self).nodes@[page_id].keys.len() + final(self).nodes@[rid].keys.len()) / 2),
            t is Inner && r.0 is Some ==> old(self).nodes@[page_id].keys.len() + 1 >= old(self).order - 1,
            t is Inner && r.0 is None ==> final(self).nodes@[page_id].keys.len() == old(self).nodes@[page_id].keys.len()
                || final(self).nodes@[page_id].keys.len() == old(self).nodes@[page_id].keys.len() + 1 < old(self).order - 1,
        decreases h,
    {
        let ghost n0 = self.nodes@;
        let ghost a0 = self.storage.allocated();
        let ghost key = record.key@;
        let ghost value = record.value@;
        proof {
            lemma_ids_known(t, n0, lo, hi, h);
            lemma_has_own_id(t, h);
        }
        let _guard = self.lock_manager.write_lock(page_id);
        let (_page, node) = self.read_node(page_id);
        let ghost o = self.order as int;
        proof {
            crate::delete_proofs::lemma_leaf_iff_height(t, n0, lo, hi, h);
        }
        if node.is_leaf() {
            return self.insert_into_leaf(page_id, node, record, Ghost(lo), Ghost(hi));
        }
        let ghost cs = t->1;
        let ghost keys = n0[page_id].keys;
        let ghost hc = (h - 1) as nat;
        let ghost fit0 = o >= 3 && all_fit(t, n0, h, o, o - 1);
        let ghost tight0 = o >= 3 && all_fit(t, n0, h, o, o - 2);
        let pos = find_position(&node.keys, &record.key);
        proof {
            lemma_route(keys, key);
            if fit0 {
                lemma_fit_child(page_id, cs, n0, h, o, o - 1, pos as int);
            }
            if tight0 {
                lemma_fit_child(page_id, cs, n0, h, o, o - 2, pos as int);
            }
            lemma_route(keys, key);
            lemma_route_in_child(keys, key, lo, hi);
            assert(child_ids(cs)[pos as int] == cs[pos as int].id());
        }
        let child_id = node.children[pos];
        let ghost clo = child_lo(keys, lo, pos as int);
        let ghost chi = child_hi(keys, hi, pos as int);
        let (res, added, Ghost(c2), Ghost(cr)) = self.insert_recursive(
            child_id,
            record,
            Ghost(cs[pos as int]),
            Ghost(clo),
            Ghost(chi),
            Ghost(hc),
        );
        let ghost n1 = self.nodes@;
        let ghost a1 = self.storage.allocated();
        proof {
            assert(lookup(t, n0, key, h) == lookup(cs[pos as int], n0, key, hc));
        }
        match res {
            None => {
                proof {
                    lemma_replace_child(page_id, cs, n0, n1, lo, hi, h, pos as int, c2, a0, a1, key, value);
                    lemma_chain_child(page_id, cs, n0, n1, lo, hi, h, pos as int, c2);
                    assert(!has_id(cs[pos as int], page_id, hc));
                    assert(cs.subrange(0, pos as int) + seq![c2] + cs.subrange(pos + 1, cs.len() as int)
                        =~= cs.update(pos as int, c2));
                    if fit0 {
                        lemma_fit_replace(page_id, cs, n0, n1, lo, hi, h, o, o - 1, pos as int, seq![c2]);
                    }
                    if tight0 {
                        lemma_fit_replace(page_id, cs, n0, n1, lo, hi, h, o, o - 2, pos as int, seq![c2]);
                    }
                    let t2 = Shape::Inner(page_id, cs.update(pos as int, c2));
                    assert forall|x: u64| n0.contains_key(x) && !#[trigger] has_id(t, x, h) implies n1.contains_key(x)
                        && n1[x] == n0[x] by {
                        if has_id(cs[pos as int], x, hc) {
                            lemma_child_ids(page_id, cs, pos as int, x, h);
                        }
                    }
                }
                (None, added, Ghost(Shape::Inner(page_id, cs.update(pos as int, c2))), Ghost(cr))
            },
            Some((mid_key, new_child)) => {
                let ghost sep = mid_key@;
                proof {
                    assert(!has_id(cs[pos as int], page_id, hc));
                    assert(n1[page_id] == n0[page_id]);
                }
                let (page, mut node) = self.read_node(page_id);
                assert(pos < node.children.len());
                node.keys.insert(pos, mid_key);
                node.children.insert(pos + 1, new_child);
                let ghost np = NodeView {
                    keys: keys.insert(pos as int, sep),
                    children: n0[page_id].children.insert(pos + 1, new_child),
                    ..n0[page_id]
                };
                proof {
                    assert(node@.keys =~= np.keys);
                    assert(node@.children =~= np.children);
                    assert(node@ == np);
                    lemma_child_split(page_id, cs, n0, n1, lo, hi, h, pos as int, c2, cr, sep, a0, a1, key, value);
                }
                self.write_node(page, &node);
                let ghost n2 = self.nodes@;
                let ghost t2 = Shape::Inner(page_id, cs.update(pos as int, c2).insert(pos + 1, cr));
                proof {
                    assert(n2 == n1.insert(page_id, np));
                    assert forall|x: u64| n0.contains_key(x) && !#[trigger] has_id(t, x, h) implies n2.contains_key(x)
                        && n2[x] == n0[x] by {
                        if has_id(cs[pos as int], x, hc) {
                            lemma_child_ids(page_id, cs, pos as int, x, h);
                        }
                    }
                    let lsc = leaves(c2, hc) + leaves(cr, hc);
                    lemma_leaves_ids(c2, hc);
                    lemma_leaves_ids(cr, hc);
                    assert forall|i: int| 0 <= i < lsc.len() implies n2[#[trigger] lsc[i]].next_leaf == n1[lsc[i]].next_leaf by {
                        if i < leaves(c2, hc).len() {
                            assert(lsc[i] == leaves(c2, hc)[i]);
                        } else {
                            assert(lsc[i] == leaves(cr, hc)[i - leaves(c2, hc).len()]);
                        }
                    }
                    lemma_chain_kept_frame(cs[pos as int], n0, hc, lsc, n1, n2);
                    lemma_chain_child_split(page_id, cs, n0, n2, lo, hi, h, pos as int, c2, cr);
                    assert(cs.subrange(0, pos as int) + seq![c2, cr] + cs.subrange(pos + 1, cs.len() as int)
                        =~= cs.update(pos as int, c2).insert(pos + 1, cr));
                    if fit0 {
                        lemma_fit_replace(page_id, cs, n0, n1, lo, hi, h, o, o - 1, pos as int, seq![c2, cr]);
                    }
                    if tight0 {
                        lemma_fit_replace(page_id, cs, n0, n1, lo, hi, h, o, o - 2, pos as int, seq![c2, cr]);
                    }
                }
                let ghost a2 = self.storage.allocated();
                proof {
                    assert forall|x: u64| #[trigger] n2.contains_key(x) implies x < a2 by {}
                    assert(n2[page_id] == np);
                }
                if node.is_full(self.order) {
                    let (sep2, rid, Ghost(tl), Ghost(tr)) = self.split_internal(
                        page_id,
                        Ghost(t2),
                        Ghost(lo),
                        Ghost(hi),
                        Ghost(h),
                    );
                    let ghost n3 = self.nodes@;
                    let ghost a3 = self.storage.allocated();
                    proof {
                        lemma_leaves_known(t2, n2, lo, hi, h);
                        lemma_tree_entries(tl, n3, lo, Some(sep2@), h);
                        lemma_chain_kept_frame(t, n0, h, leaves(t2, h), n2, n3);
                        assert forall|x: u64| n0.contains_key(x) && !#[trigger] has_id(t, x, h) implies n3.contains_key(x)
                            && n3[x] == n0[x] by {
                            lemma_has_own_id(t, h);
                            assert(n2.contains_key(x) && n2[x] == n0[x]);
                            assert(n3[x] == n2[x]);
                        }
                        assert forall|x: u64| #[trigger] has_id(tl, x, h) implies has_id(t, x, h) || (a0 <= x < a3) by {
                            assert(has_id(t2, x, h));
                        }
                        assert forall|x: u64| #[trigger] has_id(tr, x, h) implies has_id(t, x, h) || (a0 <= x < a3) by {
                            if x != rid {
                                assert(has_id(t2, x, h));
                            }
                        }
                        assert forall|k: KeyView| in_range(k, lo, hi) && key_lt(k, sep2@) implies #[trigger] lookup(tl, n3, k, h)
                            == updated(t, n0, h, key, value, k) by {
                            assert(lookup(t2, n2, k, h) == updated(t, n0, h, key, value, k));
                        }
                        assert forall|k: KeyView| in_range(k, lo, hi) && !key_lt(k, sep2@) implies #[trigger] lookup(tr, n3, k, h)
                            == updated(t, n0, h, key, value, k) by {
                            assert(lookup(t2, n2, k, h) == updated(t, n0, h, key, value, k));
                        }
                        assert forall|x: u64| #[trigger] n3.contains_key(x) implies x < a3 by {
                            assert(pages_hold(self.storage, n3));
                        }
                        if fit0 || tight0 {
                            let cs2 = t2->1;
                            lemma_ids_known(t2, n2, lo, hi, h);
                            assert forall|i: int, x: u64| 0 <= i < cs2.len() && #[trigger] has_id(cs2[i], x, hc) implies n3[x]
                                == n1[x] by {
                                lemma_child_ids(page_id, cs2, i, x, h);
                                assert(n2.contains_key(x));
                                assert(!has_id(cs2[i], page_id, hc));
                            }
                            if fit0 {
                                lemma_fit_split(page_id, rid, cs2, n1, n3, h, o, o - 1, (np.keys.len() / 2) as int);
                            }
                            if tight0 {
                                lemma_fit_split(page_id, rid, cs2, n1, n3, h, o, o - 2, (np.keys.len() / 2) as int);
                            }
                        }
                    }
                    return (Some((sep2, rid)), added, Ghost(tl), Ghost(tr));
                }
                proof {
                    if fit0 || tight0 {
                        let cs2 = t2->1;
                        assert forall|i: int, x: u64| 0 <= i < cs2.len() && #[trigger] has_id(cs2[i], x, hc) implies n2[x]
                            == n1[x] by {
                            assert(!has_id(cs2[i], page_id, hc));
                        }
                        if fit0 {
                            lemma_fit_new_root(page_id, cs2, n1, n2, h, o, o - 1);
                        }
                        if tight0 {
                            lemma_fit_new_root(page_id, cs2, n1, n2, h, o, o - 2);
                        }
                    }
                }
                (None, added, Ghost(t2), Ghost(cr))
            },
        }
    }

    /// Insert a key-value pair; an existing key gets the new value.
    #[verifier::spinoff_prover]
    #[verifier::rlimit(40)]
    pub fn insert(&mut self, key: Key, value: Value)
        requires
            old(self).wf(),
            old(self).order_spec() >= 1,
            old(self).allocated_spec() + old(self).height_spec() + 2 <= u64::MAX,
            old(self)@.len() < usize::MAX,
        ensures
            final(self).wf(),
            final(self)@ == old(self)@.insert(key@, value@),
            final(self)@.dom().finite(),
            final(self).order_spec() == old(self).order_spec(),
            final(self).height_spec() <= old(self).height_spec() + 1,
            final(self).allocated_spec() <= old(self).allocated_spec() + old(self).height_spec() + 2,
            final(self).order_spec() >= 3 ==> final(self).within_order(),
            old(self).order_spec() >= 3 && old(self).below_split_size() ==> final(self).below_split_size(),
            final(self).node_pages().contains(final(self).leaf_of(key@)),
            checksum_ok(final(self).pages_spec()[final(self).leaf_of(key@)]),
            final(self).height_spec() == old(self).height_spec() ==> final(self).root_spec() == old(self).root_spec(),
            final(self).height_spec() != old(self).height_spec() ==> final(self).root_spec() + 1
                == final(self).allocated_spec(),
            old(self).height_spec() == 0 ==> (final(self).height_spec() != 0 <==> (!old(self)@.contains_key(key@)
                && old(self)@.len() + 1 >= old(self).order_spec() - 1)),
            old(self).height_spec() == 0 && final(self).height_spec() != 0 ==> final(self).leaf_pages() == seq![
                old(self).root_spec(),
                old(self).allocated_spec(),
            ] && final(self).root_spec() == old(self).allocated_spec() + 1,
            old(self).height_spec() == 0 && final(self).height_spec() == 0 ==> final(self).allocated_spec()
                == old(self).allocated_spec(),
            old(self).height_spec() == 0 && final(self).height_spec() != 0 ==> {
                let n = final(self)@.len() as int;
                &&& leaf_entries(final(self).node_at(old(self).root_spec())) == final(self).records().subrange(0, n / 2)
                &&& leaf_entries(final(self).node_at(old(self).allocated_spec())) == final(self).records().subrange(
                    n / 2,
                    n,
                )
            },
    {
        let ghost n0 = self.nodes@;
        let ghost a0 = self.storage.allocated();
        let ghost t = self.shape@;
        let ghost h = self.height@;
        let ghost kv = key@;
        let ghost vv = value@;
        let record = Record { key, value };
        proof {
            if h == 0 {
                let l1 = seq![self.root_page];
                lemma_leaf_iff_height(t, n0, None, None, h);
                assert(self.leaf_pages() == l1);
                assert(l1.drop_last() =~= Seq::<u64>::empty());
                assert(entries(l1, n0) == entries(l1.drop_last(), n0) + leaf_entries(n0[l1.last()]));
                self.lemma_records();
                crate::laws::law_listing_len(self.contents@, self.records());
                assert(n0[self.root_page].keys.len() == self.contents@.len());
            }
        }
        let (split, added, Ghost(t2), Ghost(tr)) = self.insert_recursive(
            self.root_page,
            record,
            Ghost(t),
            Ghost(None),
            Ghost(None),
            Ghost(h),
        );
        let ghost n1 = self.nodes@;
        let ghost a1 = self.storage.allocated();
        proof {
            lemma_ids_known(t, n0, None, None, h);
        }
        match split {
            Some((sep, rid)) => {
                let ghost sv = sep@;
                let mut new_root = Node::new_internal();
                new_root.keys.push(sep);
                new_root.children.push(self.root_page);
                new_root.children.push(rid);
                let new_root_id = self.storage.alloc_page();
                let page = Page::new_internal(new_root_id);
                self.write_node(page, &new_root);
                let ghost n2 = self.nodes@;
                let ghost cs = seq![t2, tr];
                let ghost t3 = Shape::Inner(new_root_id, cs);
                proof {
                    assert(n2 == n1.insert(new_root_id, new_root@));
                    assert(!n1.contains_key(new_root_id));
                    lemma_ids_known(t2, n1, None, Some(sv), h);
                    lemma_ids_known(tr, n1, Some(sv), None, h);
                    assert(same_on(t2, h, n1, n2));
                    assert(same_on(tr, h, n1, n2));
                    lemma_frame(t2, n1, n2, None, Some(sv), h);
                    lemma_frame(tr, n1, n2, Some(sv), None, h);
                    assert(new_root@.keys =~= seq![sv]);
                    assert(new_root@.children =~= child_ids(cs));
                    assert(t3->1 == cs);
                    assert(cs[0] == t2 && cs[1] == tr);
                    assert(child_lo(seq![sv], None, 0) == None::<KeyView>);
                    assert(child_hi(seq![sv], None, 0) == Some(sv));
                    assert(child_lo(seq![sv], None, 1) == Some(sv));
                    assert(child_hi(seq![sv], None, 1) == None::<KeyView>);
                    assert(!has_id(t2, new_root_id, h));
                    assert(!has_id(tr, new_root_id, h));
                    assert forall|i: int, j: int, x: u64|
                        0 <= i < cs.len() && 0 <= j < cs.len() && i != j && #[trigger] has_id(cs[i], x, h)
                            implies !#[trigger] has_id(cs[j], x, h) by {}
                    assert(wf_shape(t3, n2, None, None, h + 1));
                    assert(chain(leaves(t, h), n0, None));
                    let lsn = leaves(t2, h) + leaves(tr, h);
                    assert(chain(lsn, n1, None));
                    lemma_leaves_pair(t2, tr, h);
                    assert(leaves(t3, h + 1) == lsn);
                    lemma_leaves_known(t2, n1, None, Some(sv), h);
                    lemma_leaves_known(tr, n1, Some(sv), None, h);
                    assert forall|i: int| 0 <= i < lsn.len() implies n2[#[trigger] lsn[i]].next_leaf == n1[lsn[i]].next_leaf by {
                        if i < leaves(t2, h).len() {
                            assert(lsn[i] == leaves(t2, h)[i]);
                        } else {
                            assert(lsn[i] == leaves(tr, h)[i - leaves(t2, h).len()]);
                        }
                    }
                    lemma_chain_frame(lsn, n1, n2, None);
                    if self.order >= 3 {
                        let o = self.order as int;
                        lemma_fit_frame(t2, n1, n2, h, o, o - 1);
                        lemma_fit_frame(tr, n1, n2, h, o, o - 1);
                        assert forall|i: int| 0 <= i < cs.len() implies all_fit(#[trigger] cs[i], n2, h, o, o - 1) by {}
                        lemma_fit_inner(new_root_id, cs, n2, h + 1, o, o - 1);
                        if all_fit(t, n0, h, o, o - 2) {
                            lemma_fit_frame(t2, n1, n2, h, o, o - 2);
                            lemma_fit_frame(tr, n1, n2, h, o, o - 2);
                            assert forall|i: int| 0 <= i < cs.len() implies all_fit(#[trigger] cs[i], n2, h, o, o - 2) by {}
                            lemma_fit_inner(new_root_id, cs, n2, h + 1, o, o - 2);
                        }
                    }
                    assert forall|k: KeyView| #[trigger] lookup(t3, n2, k, h + 1) == updated(t, n0, h, kv, vv, k) by {
                        if key_lt(k, sv) {
                            lemma_route_unique(seq![sv], k, 0);
                            assert(lookup(t2, n2, k, h) == lookup(t2, n1, k, h));
                        } else {
                            lemma_route_unique(seq![sv], k, 1);
                            assert(lookup(tr, n2, k, h) == lookup(tr, n1, k, h));
                        }
                    }
                }
                self.root_page = new_root_id;
                self.shape = Ghost(t3);
                self.height = Ghost(h + 1);
            },
            None => {
                proof {
                    assert(chain(leaves(t, h), n0, None));
                }
                self.shape = Ghost(t2);
            },
        }
        proof {
            assert(self.shape@.id() == self.root_page);
        }
        if added {
            self.size = self.size + 1;
        }
        self.contents = Ghost(self.contents@.insert(kv, vv));
        proof {
            assert forall|k: KeyView| #[trigger] lookup(self.shape@, self.nodes@, k, self.height@) == if self.contents@.contains_key(k) {
                Some(self.contents@[k])
            } else {
                None
            } by {
                assert(lookup(t, n0, k, h) == if old(self).contents@.contains_key(k) {
                    Some(old(self).contents@[k])
                } else {
                    None
                });
            }
            let li = self.lemma_leaf_of(kv);
            self.lemma_pages_checksummed();
            assert(self.node_pages().contains(self.leaf_pages()[li]));
            assert(self.node_at(self.leaf_of(kv)).keys.contains(kv));
            if h == 0 && self.height@ != 0 {
                let nn = self.nodes@;
                let ls = seq![old(self).root_page, a0];
                lemma_leaf_iff_height(t2, n1, None, None, h);
                lemma_leaf_iff_height(tr, n1, None, None, h);
                assert(self.leaf_pages() == ls);
                let l1 = seq![old(self).root_page];
                assert(ls.drop_last() =~= l1);
                assert(l1.drop_last() =~= Seq::<u64>::empty());
                let e0 = leaf_entries(nn[old(self).root_page]);
                let e1 = leaf_entries(nn[a0]);
                assert(entries(l1, nn) == entries(l1.drop_last(), nn) + leaf_entries(nn[l1.last()]));
                assert(entries(l1, nn) =~= e0);
                assert(entries(ls, nn) == entries(ls.drop_last(), nn) + leaf_entries(nn[ls.last()]));
                assert(self.records() == entries(ls, nn));
                assert(self.records() =~= e0 + e1);
                self.lemma_records();
                crate::laws::law_listing_len(self.contents@, self.records());
                assert(e0 =~= self.records().subrange(0, e0.len() as int));
                assert(e1 =~= self.records().subrange(e0.len() as int, self.records().len() as int));
            }
        }
    }

    /// Removes `key` from a leaf, when the leaf holds it.
    #[verifier::spinoff_prover]
    fn delete_from_leaf(
        &mut self,
        page_id: u64,
        node: Node,
        key: &Key,
        Ghost(lo): Ghost<Option<KeyView>>,
        Ghost(hi): Ghost<Option<KeyView>>,
    ) -> (r: bool)
        requires
            pages_hold(old(self).storage, old(self).nodes@),
            old(self).nodes@.contains_key(page_id),
            node@ == old(self).nodes@[page_id],
            leaf_ok(node@, lo, hi),
        ensures
            pages_hold(final(self).storage, final(self).nodes@),
            final(self).same_frame(old(self)),
            final(self).storage.allocated() == old(self).storage.allocated(),
            r == node@.keys.contains(key@),
            final(self).nodes@ == old(self).nodes@.insert(page_id, final(self).nodes@[page_id]),
            leaf_ok(final(self).nodes@[page_id], lo, hi),
            final(self).nodes@[page_id].next_leaf == node@.next_leaf,
            final(self).nodes@[page_id].prev_leaf == node@.prev_leaf,
            r ==> final(self).nodes@[page_id] == leaf_with_keys(
                node@,
                node@.keys.remove(key_index(node@.keys, key@)),
                node@.values.remove(key_index(node@.keys, key@)),
            ),
            !r ==> final(self).nodes@ == old(self).nodes@,
            !r ==> final(self).storage.page_map() == old(self).storage.page_map(),
            forall|k: KeyView| #[trigger]
                leaf_get(final(self).nodes@[page_id], k) == if k == key@ {
                    None
                } else {
                    leaf_get(node@, k)
                },
    {
        let ghost n = node@;
        match find_key(&node.keys, key) {
            Some(pos) => {
                let mut node = node;
                node.keys.remove(pos);
                node.values.remove(pos);
                proof {
                    lemma_leaf_remove(n, lo, hi, pos as int);
                    assert(node@.keys =~= n.keys.remove(pos as int));
                    assert(node@.values =~= n.values.remove(pos as int));
                    assert(node@ == leaf_with_keys(n, n.keys.remove(pos as int), n.values.remove(pos as int)));
                    lemma_key_index(n.keys, pos as int);
                }
                let page = Page::new_leaf(page_id);
                self.write_node(page, &node);
                true
            },
            None => {
                proof {
                    assert(self.nodes@ =~= self.nodes@.insert(page_id, n));
                }
                false
            },
        }
    }

    /// Moves the first entry of the right sibling of child `child_pos` into
    /// that child; for internal nodes it passes through the parent's separator.
    #[verifier::spinoff_prover]
    #[verifier::rlimit(50)]
    fn borrow_from_right(
        &mut self,
        parent_id: u64,
        child_pos: usize,
        Ghost(t): Ghost<Shape>,
        Ghost(lo): Ghost<Option<KeyView>>,
        Ghost(hi): Ghost<Option<KeyView>>,
        Ghost(h): Ghost<nat>,
    ) -> (r: Ghost<Shape>)
        requires
            pages_hold(old(self).storage, old(self).nodes@),
            wf_shape(t, old(self).nodes@, lo, hi, h),
            t is Inner,
            t.id() == parent_id,
            child_pos + 1 < t->1.len(),
            old(self).nodes@[t->1[child_pos + 1].id()].keys.len() >= 2,
        ensures
            pages_hold(final(self).storage, final(self).nodes@),
            final(self).same_frame(old(self)),
            final(self).storage.allocated() == old(self).storage.allocated(),
            rebalance_done(old(self).nodes@, final(self).nodes@, t, lo, hi, h, r@),
            chain_kept(t, old(self).nodes@, h, leaves(r@, h), final(self).nodes@),
            final(self).nodes@ == borrowed_right(old(self).nodes@, parent_id, child_pos as int),
    {
        let ghost n0 = self.nodes@;
        let ghost cs = t->1;
        let ghost j = child_pos as int;
        let ghost hc = (h - 1) as nat;
        let ghost p = n0[parent_id];
        let ghost c = n0[cs[j].id()];
        let ghost rn = n0[cs[j + 1].id()];
        proof {
            lemma_pair_facts(parent_id, cs, n0, lo, hi, h, j);
            lemma_leaf_iff_height(cs[j], n0, child_lo(p.keys, lo, j), Some(p.keys[j]), hc);
            lemma_node_arity(cs[j], n0, child_lo(p.keys, lo, j), Some(p.keys[j]), hc);
            lemma_node_arity(cs[j + 1], n0, Some(p.keys[j]), child_hi(p.keys, hi, j + 1), hc);
        }
        let (parent_page, mut parent_node) = self.read_node(parent_id);
        let child_id = parent_node.children[child_pos];
        let right_sib = parent_node.children[child_pos + 1];
        let (child_page, mut child_node) = self.read_node(child_id);
        let (right_page, mut right_node) = self.read_node(right_sib);
        if child_node.is_leaf() {
            let k = right_node.keys.remove(0);
            let v = right_node.values.remove(0);
            let new_sep = right_node.keys[0].duplicate();
            parent_node.keys.set(child_pos, new_sep);
            child_node.keys.push(k);
            child_node.values.push(v);
            proof {
                lemma_borrow_right_leaf(parent_id, cs, n0, lo, hi, h, j);
                assert(parent_node@.keys =~= p.keys.update(j, rn.keys[1]));
                assert(child_node@.keys =~= c.keys.push(rn.keys[0]));
                assert(child_node@.values =~= c.values.push(rn.values[0]));
                assert(right_node@.keys =~= rn.keys.drop_first());
                assert(right_node@.values =~= rn.values.drop_first());
            }
            self.write_node(parent_page, &parent_node);
            self.write_node(child_page, &child_node);
            self.write_node(right_page, &right_node);
            proof {
                assert(self.nodes@ =~= borrowed_right(n0, parent_id, j));
            }
            proof {
                lemma_chain_same(t, n0, self.nodes@, lo, hi, h);
            }
            Ghost(t)
        } else {
            let sep = parent_node.keys[child_pos].duplicate();
            let ns = right_node.keys.remove(0);
            let bc = right_node.children.remove(0);
            parent_node.keys.set(child_pos, ns);
            child_node.keys.push(sep);
            child_node.children.push(bc);
            let ghost mid: int = (c.keys.len() + 1) as int;
            let ghost mk = c.keys.push(p.keys[j]) + rn.keys;
            let ghost mc = c.children + rn.children;
            proof {
                lemma_rotate_inner(parent_id, cs, n0, lo, hi, h, j, mid);
                assert(parent_node@.keys =~= p.keys.update(j, mk[mid]));
                assert(parent_node@.keys =~= p.keys.update(j, rn.keys[0]));
                assert(child_node@.keys =~= c.keys.push(p.keys[j]));
                assert(child_node@.children =~= c.children.push(rn.children[0]));
                assert(right_node@.keys =~= rn.keys.drop_first());
                assert(right_node@.children =~= rn.children.drop_first());
                assert(child_node@.keys =~= mk.subrange(0, mid));
                assert(child_node@.children =~= mc.subrange(0, mid + 1));
                assert(right_node@.keys =~= mk.subrange(mid + 1, mk.len() as int));
                assert(right_node@.children =~= mc.subrange(mid + 1, mc.len() as int));
            }
            self.write_node(parent_page, &parent_node);
            self.write_node(child_page, &child_node);
            self.write_node(right_page, &right_node);
            proof {
                assert(self.nodes@ =~= borrowed_right(n0, parent_id, j));
            }
            let ghost halves = split_shapes(cs[j].id(), cs[j + 1].id(), cs[j]->1 + cs[j + 1]->1, mid);
            proof {
                lemma_chain_rotated(parent_id, cs, n0, self.nodes@, lo, hi, h, j, mid);
            }
            Ghost(Shape::Inner(parent_id, cs.update(j, halves.0).update(j + 1, halves.1)))
        }
    }

    /// Moves the last entry of the left sibling of child `child_pos` into
    /// that child; for internal nodes it passes through the parent's separator.
    #[verifier::spinoff_prover]
    #[verifier::rlimit(50)]
    fn borrow_from_left(
        &mut self,
        parent_id: u64,
        child_pos: usize,
        Ghost(t): Ghost<Shape>,
        Ghost(lo): Ghost<Option<KeyView>>,
        Ghost(hi): Ghost<Option<KeyView>>,
        Ghost(h): Ghost<nat>,
    ) -> (r: Ghost<Shape>)
        requires
            pages_hold(old(self).storage, old(self).nodes@),
            wf_shape(t, old(self).nodes@, lo, hi, h),
            t is Inner,
            t.id() == parent_id,
            0 < child_pos < t->1.len(),
            old(self).nodes@[t->1[child_pos - 1].id()].keys.len() >= 1,
        ensures
            pages_hold(final(self).storage, final(self).nodes@),
            final(self).same_frame(old(self)),
            final(self).storage.allocated() == old(self).storage.allocated(),
            rebalance_done(old(self).nodes@, final(self).nodes@, t, lo, hi, h, r@),
            chain_kept(t, old(self).nodes@, h, leaves(r@, h), final(self).nodes@),
            final(self).nodes@ == borrowed_left(old(self).nodes@, parent_id, child_pos as int),
    {
        let ghost n0 = self.nodes@;
        let ghost cs = t->1;
        let ghost j = child_pos - 1;
        let ghost hc = (h - 1) as nat;
        let ghost p = n0[parent_id];
        let ghost l = n0[cs[j].id()];
        let ghost c = n0[cs[j + 1].id()];
        proof {
            lemma_pair_facts(parent_id, cs, n0, lo, hi, h, j);
            lemma_leaf_iff_height(cs[j], n0, child_lo(p.keys, lo, j), Some(p.keys[j]), hc);
            lemma_node_arity(cs[j], n0, child_lo(p.keys, lo, j), Some(p.keys[j]), hc);
            lemma_node_arity(cs[j + 1], n0, Some(p.keys[j]), child_hi(p.keys, hi, j + 1), hc);
        }
        let (parent_page, mut parent_node) = self.read_node(parent_id);
        let child_id = parent_node.children[child_pos];
        let left_sib = parent_node.children[child_pos - 1];
        let (child_page, mut child_node) = self.read_node(child_id);
        let (left_page, mut left_node) = self.read_node(left_sib);
        if child_node.is_leaf() {
            let k = left_node.keys.pop().unwrap();
            let v = left_node.values.pop().unwrap();
            parent_node.keys.set(child_pos - 1, k.duplicate());
            child_node.keys.insert(0, k);
            child_node.values.insert(0, v);
            proof {
                lemma_borrow_left_leaf(parent_id, cs, n0, lo, hi, h, j);
                assert(parent_node@.keys =~= p.keys.update(j, l.keys.last()));
                assert(child_node@.keys =~= c.keys.insert(0, l.keys.last()));
                assert(child_node@.values =~= c.values.insert(0, l.values.last()));
                assert(left_node@.keys =~= l.keys.drop_last());
                assert(left_node@.values =~= l.values.drop_last());
                assert(n0.insert(parent_id, parent_node@).insert(child_id, child_node@).insert(left_sib, left_node@)
                    =~= n0.insert(parent_id, parent_node@).insert(child_id, child_node@).insert(left_sib, left_node@));
            }
            self.write_node(parent_page, &parent_node);
            self.write_node(child_page, &child_node);
            self.write_node(left_page, &left_node);
            proof {
                assert(self.nodes@ =~= borrowed_left(n0, parent_id, child_pos as int));
            }
            proof {
                lemma_chain_same(t, n0, self.nodes@, lo, hi, h);
            }
            Ghost(t)
        } else {
            let sep = parent_node.keys[child_pos - 1].duplicate();
            let ns = left_node.keys.pop().unwrap();
            let bc = left_node.children.pop().unwrap();
            parent_node.keys.set(child_pos - 1, ns);
            child_node.keys.insert(0, sep);
            child_node.children.insert(0, bc);
            let ghost mid: int = (l.keys.len() - 1) as int;
            let ghost mk = l.keys.push(p.keys[j]) + c.keys;
            let ghost mc = l.children + c.children;
            proof {
                lemma_rotate_inner(parent_id, cs, n0, lo, hi, h, j, mid);
                assert(parent_node@.keys =~= p.keys.update(j, mk[mid]));
                assert(parent_node@.keys =~= p.keys.update(j, l.keys.last()));
                assert(child_node@.keys =~= c.keys.insert(0, p.keys[j]));
                assert(child_node@.children =~= c.children.insert(0, l.children.last()));
                assert(left_node@.keys =~= l.keys.drop_last());
                assert(left_node@.children =~= l.children.drop_last());
                assert(left_node@.keys =~= mk.subrange(0, mid));
                assert(left_node@.children =~= mc.subrange(0, mid + 1));
                assert(child_node@.keys =~= mk.subrange(mid + 1, mk.len() as int));
                assert(child_node@.children =~= mc.subrange(mid + 1, mc.len() as int));
                let pm = NodeView { keys: p.keys.update(j, mk[mid]), ..p };
                assert(n0.insert(parent_id, pm).insert(child_id, child_node@).insert(left_sib, left_node@)
                    =~= n0.insert(parent_id, pm).insert(left_sib, left_node@).insert(child_id, child_node@));
            }
            self.write_node(parent_page, &parent_node);
            self.write_node(child_page, &child_node);
            self.write_node(left_page, &left_node);
            proof {
                assert(self.nodes@ =~= borrowed_left(n0, parent_id, child_pos as int));
            }
            let ghost halves = split_shapes(cs[j].id(), cs[j + 1].id(), cs[j]->1 + cs[j + 1]->1, mid);
            proof {
                lemma_chain_rotated(parent_id, cs, n0, self.nodes@, lo, hi, h, j, mid);
            }
            Ghost(Shape::Inner(parent_id, cs.update(j, halves.0).update(j + 1, halves.1)))
        }
    }

    /// Joins child `left_pos` and its right sibling into the left page; the
    /// parent loses the separator between them and the pointer to the right page.
    #[verifier::spinoff_prover]
    #[verifier::rlimit(50)]
    fn merge(
        &mut self,
        parent_id: u64,
        left_pos: usize,
        Ghost(t): Ghost<Shape>,
        Ghost(lo): Ghost<Option<KeyView>>,
        Ghost(hi): Ghost<Option<KeyView>>,
        Ghost(h): Ghost<nat>,
    ) -> (r: Ghost<Shape>)
        requires
            pages_hold(old(self).storage, old(self).nodes@),
            wf_shape(t, old(self).nodes@, lo, hi, h),
            t is Inner,
            t.id() == parent_id,
            left_pos + 1 < t->1.len(),
        ensures
            pages_hold(final(self).storage, final(self).nodes@),
            final(self).same_frame(old(self)),
            final(self).storage.allocated() == old(self).storage.allocated(),
            rebalance_done(old(self).nodes@, final(self).nodes@, t, lo, hi, h, r@),
            chain_kept(t, old(self).nodes@, h, leaves(r@, h), final(self).nodes@),
            final(self).nodes@ == merged(old(self).nodes@, parent_id, left_pos as int),
    {
        let ghost n0 = self.nodes@;
        let ghost cs = t->1;
        let ghost j = left_pos as int;
        let ghost hc = (h - 1) as nat;
        let ghost p = n0[parent_id];
        let ghost l = n0[cs[j].id()];
        let ghost rn = n0[cs[j + 1].id()];
        proof {
            lemma_pair_facts(parent_id, cs, n0, lo, hi, h, j);
            lemma_leaf_iff_height(cs[j], n0, child_lo(p.keys, lo, j), Some(p.keys[j]), hc);
            lemma_node_arity(Shape::Inner(parent_id, cs), n0, lo, hi, h);
        }
        let (parent_page, mut parent_node) = self.read_node(parent_id);
        let n_children = parent_node.children.len();
        assert(n_children == cs.len());
        let left_id = parent_node.children[left_pos];
        let right_id = parent_node.children[left_pos + 1];
        let (left_page, mut left_node) = self.read_node(left_id);
        let (_right_page, mut right_node) = self.read_node(right_id);
        let leaf = left_node.is_leaf();
        if leaf {
            left_node.keys.append(&mut right_node.keys);
            left_node.values.append(&mut right_node.values);
            left_node.next_leaf = right_node.next_leaf;
        } else {
            let sep = parent_node.keys[left_pos].duplicate();
            left_node.keys.push(sep);
            left_node.keys.append(&mut right_node.keys);
            left_node.children.append(&mut right_node.children);
        }
        parent_node.keys.remove(left_pos);
        parent_node.children.remove(left_pos + 1);
        proof {
            assert(parent_node@.keys =~= p.keys.remove(j));
            assert(parent_node@.children =~= p.children.remove(j + 1));
            if leaf {
                lemma_merge_leaf(parent_id, cs, n0, lo, hi, h, j);
                assert(left_node@.keys =~= l.keys + rn.keys);
                assert(left_node@.values =~= l.values + rn.values);
            } else {
                lemma_merge_inner(parent_id, cs, n0, lo, hi, h, j);
                assert(left_node@.keys =~= l.keys.push(p.keys[j]) + rn.keys);
                assert(left_node@.children =~= l.children + rn.children);
            }
        }
        self.write_node(parent_page, &parent_node);
        self.write_node(left_page, &left_node);
        proof {
            lemma_chain_merged(parent_id, cs, n0, self.nodes@, lo, hi, h, j);
        }
        if leaf {
            Ghost(Shape::Inner(parent_id, cs.update(j, Shape::Leaf(cs[j].id())).remove(j + 1)))
        } else {
            Ghost(Shape::Inner(parent_id, cs.update(j, Shape::Inner(cs[j].id(), cs[j]->1 + cs[j + 1]->1)).remove(j + 1)))
        }
    }

    /// Restores child `child_pos` of an internal node after it fell below the
    /// minimum number of keys: borrows from a sibling that has keys to spare,
    /// or else merges the child with a sibling.
    #[verifier::spinoff_prover]
    #[verifier::rlimit(40)]
    fn rebalance(
        &mut self,
        parent_id: u64,
        child_pos: usize,
        Ghost(t): Ghost<Shape>,
        Ghost(lo): Ghost<Option<KeyView>>,
        Ghost(hi): Ghost<Option<KeyView>>,
        Ghost(h): Ghost<nat>,
    ) -> (r: Ghost<Shape>)
        requires
            pages_hold(old(self).storage, old(self).nodes@),
            wf_shape(t, old(self).nodes@, lo, hi, h),
            t is Inner,
            t.id() == parent_id,
            child_pos < t->1.len(),
            old(self).order >= 1,
            old(self).nodes@[t->1[child_pos as int].id()].keys.len() < (old(self).order - 1) / 2,
        ensures
            pages_hold(final(self).storage, final(self).nodes@),
            final(self).same_frame(old(self)),
            final(self).storage.allocated() == old(self).storage.allocated(),
            rebalance_done(old(self).nodes@, final(self).nodes@, t, lo, hi, h, r@),
            chain_kept(t, old(self).nodes@, h, leaves(r@, h), final(self).nodes@),
            final(self).nodes@ == rebalanced(old(self).nodes@, parent_id, child_pos as int, (old(self).order - 1) / 2),
            old(self).order >= 3 && all_fit(t, old(self).nodes@, h, old(self).order as int, old(self).order - 1)
                ==> all_fit(r@, final(self).nodes@, h, old(self).order as int, old(self).order - 1),
    {
        let ghost n0 = self.nodes@;
        let ghost cs = t->1;
        proof {
            lemma_node_arity(t, n0, lo, hi, h);
            lemma_ids_known(t, n0, lo, hi, h);
            lemma_has_own_id(t, h);
        }
        let (_parent_page, parent_node) = self.read_node(parent_id);
        let n_children = parent_node.children.len();
        let min_keys = (self.order - 1) / 2;
        if child_pos + 1 < n_children {
            proof {
                lemma_pair_facts(parent_id, cs, n0, lo, hi, h, child_pos as int);
            }
            let right_sib = parent_node.children[child_pos + 1];
            let (_right_page, right_node) = self.read_node(right_sib);
            if right_node.keys.len() > min_keys {
                return self.borrow_from_right(parent_id, child_pos, Ghost(t), Ghost(lo), Ghost(hi), Ghost(h));
            }
        }
        if child_pos > 0 {
            proof {
                lemma_pair_facts(parent_id, cs, n0, lo, hi, h, child_pos - 1);
            }
            let left_sib = parent_node.children[child_pos - 1];
            let (_left_page, left_node) = self.read_node(left_sib);
            if left_node.keys.len() > min_keys {
                return self.borrow_from_left(parent_id, child_pos, Ghost(t), Ghost(lo), Ghost(hi), Ghost(h));
            }
        }
        if child_pos + 1 < n_children {
            self.merge(parent_id, child_pos, Ghost(t), Ghost(lo), Ghost(hi), Ghost(h))
        } else if child_pos > 0 {
            self.merge(parent_id, child_pos - 1, Ghost(t), Ghost(lo), Ghost(hi), Ghost(h))
        } else {
            proof {
                lemma_chain_same(t, n0, self.nodes@, lo, hi, h);
            }
            Ghost(t)
        }
    }

    /// Deletes `key` below page `page_id`, the root of subtree `t`, and
    /// rebalances each child on the way back up that fell below the minimum.
    #[verifier::spinoff_prover]
    #[verifier::rlimit(100)]
    fn delete_recursive(
        &mut self,
        page_id: u64,
        key: &Key,
        Ghost(t): Ghost<Shape>,
        Ghost(lo): Ghost<Option<KeyView>>,
        Ghost(hi): Ghost<Option<KeyView>>,
        Ghost(h): Ghost<nat>,
    ) -> (r: (bool, Ghost<Shape>, Ghost<Map<u64, NodeView>>))
        requires
            pages_hold(old(self).storage, old(self).nodes@),
            wf_shape(t, old(self).nodes@, lo, hi, h),
            t.id() == page_id,
            in_range(key@, lo, hi),
            h > 0 ==> old(self).order >= 1,
        ensures
            pages_hold(final(self).storage, final(self).nodes@),
            final(self).same_frame(old(self)),
            final(self).storage.allocated() == old(self).storage.allocated(),
            r.0 == (lookup(t, old(self).nodes@, key@, h) is Some),
            r.1@.id() == t.id(),
            wf_shape(r.1@, final(self).nodes@, lo, hi, h),
            forall|k: KeyView|
                in_range(k, lo, hi) ==> #[trigger] lookup(r.1@, final(self).nodes@, k, h) == removed(
                    t,
                    old(self).nodes@,
                    h,
                    key@,
                    k,
                ),
            forall|x: u64| #[trigger] has_id(r.1@, x, h) ==> has_id(t, x, h),
            forall|x: u64|
                old(self).nodes@.contains_key(x) && !#[trigger] has_id(t, x, h) ==> final(self).nodes@.contains_key(x)
                    && final(self).nodes@[x] == old(self).nodes@[x],
            chain_kept(t, old(self).nodes@, h, leaves(r.1@, h), final(self).nodes@),
            !r.0 ==> final(self).nodes@ == old(self).nodes@,
            !r.0 ==> final(self).storage.page_map() == old(self).storage.page_map(),
            !r.0 ==> r.1@ == t,
            h > 0 && r.0 ==> ({
                let p = old(self).nodes@[page_id];
                let pos = route(p.keys, key@);
                let nm = r.2@;
                &&& nm[page_id] == p
                &&& final(self).nodes@ == if nm[p.children[pos]].keys.len() < (old(self).order - 1) / 2 {
                    rebalanced(nm, page_id, pos, (old(self).order - 1) / 2)
                } else {
                    nm
                }
            }),
            old(self).order >= 3 && all_fit(t, old(self).nodes@, h, old(self).order as int, old(self).order - 1)
                ==> all_fit(r.1@, final(self).nodes@, h, old(self).order as int, old(self).order - 1),
        decreases h,
    {
        let ghost n0 = self.nodes@;
        let ghost a0 = self.storage.allocated();
        proof {
            lemma_ids_known(t, n0, lo, hi, h);
            lemma_has_own_id(t, h);
            lemma_leaf_iff_height(t, n0, lo, hi, h);
        }
        let _guard = self.lock_manager.write_lock(page_id);
        let (_page, node) = self.read_node(page_id);
        if node.is_leaf() {
            let found = self.delete_from_leaf(page_id, node, key, Ghost(lo), Ghost(hi));
            proof {
                let n1 = self.nodes@;
                assert(n0[page_id].keys.contains(key@) == (leaf_get(n0[page_id], key@) is Some));
                assert forall|k: KeyView| in_range(k, lo, hi) implies #[trigger] lookup(t, n1, k, h) == removed(
                    t,
                    n0,
                    h,
                    key@,
                    k,
                ) by {}
                lemma_chain_same(t, n0, n1, lo, hi, h);
            }
            return (found, Ghost(t), Ghost(self.nodes@));
        }
        let ghost cs = t->1;
        let ghost keys = n0[page_id].keys;
        let ghost hc = (h - 1) as nat;
        let pos = find_position(&node.keys, key);
        proof {
            lemma_route(keys, key@);
            lemma_route_in_child(keys, key@, lo, hi);
            assert(child_ids(cs)[pos as int] == cs[pos as int].id());
        }
        let child_id = node.children[pos];
        let ghost clo = child_lo(keys, lo, pos as int);
        let ghost chi = child_hi(keys, hi, pos as int);
        proof {
            if self.order >= 3 && all_fit(t, n0, h, self.order as int, self.order - 1) {
                lemma_fit_child(page_id, cs, n0, h, self.order as int, self.order - 1, pos as int);
            }
        }
        let (found, Ghost(c2), Ghost(_nc)) = self.delete_recursive(child_id, key, Ghost(cs[pos as int]), Ghost(clo), Ghost(chi), Ghost(hc));
        let ghost n1 = self.nodes@;
        let ghost t1 = Shape::Inner(page_id, cs.update(pos as int, c2));
        proof {
            assert(lookup(t, n0, key@, h) == lookup(cs[pos as int], n0, key@, hc));
            assert forall|x: u64| #[trigger] n0.contains_key(x) implies x < a0 by {}
            lemma_replace_child_removed(page_id, cs, n0, n1, lo, hi, h, pos as int, c2, a0, a0, key@);
            lemma_chain_child(page_id, cs, n0, n1, lo, hi, h, pos as int, c2);
            assert(!has_id(cs[pos as int], page_id, hc));
            if self.order >= 3 && all_fit(t, n0, h, self.order as int, self.order - 1) {
                lemma_fit_replace(page_id, cs, n0, n1, lo, hi, h, self.order as int, self.order - 1, pos as int, seq![c2]);
                assert(cs.subrange(0, pos as int) + seq![c2] + cs.subrange(pos + 1, cs.len() as int) =~= cs.update(
                    pos as int,
                    c2,
                ));
            }
            assert forall|x: u64| n0.contains_key(x) && !#[trigger] has_id(t, x, h) implies n1.contains_key(x)
                && n1[x] == n0[x] by {
                if has_id(cs[pos as int], x, hc) {
                    lemma_child_ids(page_id, cs, pos as int, x, h);
                }
            }
        }
        if !found {
            proof {
                assert(cs.update(pos as int, c2) =~= cs);
                assert(t == Shape::Inner(page_id, cs));
            }
            return (false, Ghost(t1), Ghost(n1));
        }
        let min_keys = (self.order - 1) / 2;
        proof {
            lemma_ids_known(t1, n1, lo, hi, h);
            assert(t1->1[pos as int] == c2);
            lemma_has_own_id(c2, hc);
            lemma_child_ids(page_id, cs.update(pos as int, c2), pos as int, child_id, h);
        }
        let (_child_page, child_node) = self.read_node(child_id);
        if child_node.keys.len() < min_keys {
            let Ghost(t3) = self.rebalance(page_id, pos, Ghost(t1), Ghost(lo), Ghost(hi), Ghost(h));
            proof {
                let n2 = self.nodes@;
                assert forall|x: u64| n0.contains_key(x) && !#[trigger] has_id(t, x, h) implies n2.contains_key(x)
                    && n2[x] == n0[x] by {
                    assert(!has_id(t1, x, h));
                }
                lemma_chain_kept_trans(t, n0, h, t1, n1, leaves(t3, h), n2);
            }
            return (true, Ghost(t3), Ghost(n1));
        }
        (true, Ghost(t1), Ghost(n1))
    }

    /// Delete `key`; returns whether the tree held it.
    #[verifier::spinoff_prover]
    pub fn delete(&mut self, key: &Key) -> (r: bool)
        requires
            old(self).wf(),
        ensures
            final(self).wf(),
            r == old(self)@.contains_key(key@),
            final(self)@ == old(self)@.remove(key@),
            final(self)@.dom().finite(),
            final(self).order_spec() == old(self).order_spec(),
            final(self).height_spec() <= old(self).height_spec(),
            final(self).allocated_spec() == old(self).allocated_spec(),
            !r ==> final(self).same_state(old(self)),
            !r ==> final(self).reads_as(old(self)),
            final(self).order_spec() >= 3 ==> final(self).within_order(),
            final(self).height_spec() == old(self).height_spec() ==> final(self).root_spec() == old(self).root_spec(),
            final(self).height_spec() != old(self).height_spec() ==> {
                let emptied = final(self).node_at(old(self).root_spec());
                &&& final(self).height_spec() + 1 == old(self).height_spec()
                &&& old(self).root_spec() != 0
                &&& !emptied.is_leaf
                &&& emptied.keys.len() == 0
                &&& final(self).root_spec() == emptied.children[0]
            },
    {
        let ghost n0 = self.nodes@;
        let ghost t = self.shape@;
        let ghost h = self.height@;
        let ghost kv = key@;
        let (found, Ghost(t2), Ghost(_nm)) = self.delete_recursive(self.root_page, key, Ghost(t), Ghost(None), Ghost(None), Ghost(h));
        self.shape = Ghost(t2);
        proof {
            assert(chain(leaves(t, h), n0, None));
            assert(lookup(t, n0, kv, h) == if old(self).contents@.contains_key(kv) {
                Some(old(self).contents@[kv])
            } else {
                None
            });
        }
        if !found {
            proof {
                assert forall|k: KeyView| #[trigger] lookup(self.shape@, self.nodes@, k, self.height@) == if self.contents@.contains_key(k) {
                    Some(self.contents@[k])
                } else {
                    None
                } by {
                    assert(lookup(t, n0, k, h) == if old(self).contents@.contains_key(k) {
                        Some(old(self).contents@[k])
                    } else {
                        None
                    });
                }
                assert(self.contents@.remove(kv) =~= self.contents@);
            }
            return false;
        }
        proof {
            assert(self.contents@.contains_key(kv));
            assert(self.contents@.remove(kv).len() == self.contents@.len() - 1);
        }
        self.size = self.size - 1;
        self.contents = Ghost(self.contents@.remove(kv));
        proof {
            assert forall|k: KeyView| #[trigger] lookup(self.shape@, self.nodes@, k, self.height@) == if self.contents@.contains_key(k) {
                Some(self.contents@[k])
            } else {
                None
            } by {
                assert(lookup(t, n0, k, h) == if old(self).contents@.contains_key(k) {
                    Some(old(self).contents@[k])
                } else {
                    None
                });
            }
        }
        if self.root_page != 0 {
            let _guard = self.lock_manager.read_lock(self.root_page);
            proof {
                lemma_leaf_iff_height(t2, self.nodes@, None, None, h);
            }
            let (_page, node) = self.read_node(self.root_page);
            if !node.is_leaf() && node.keys.len() == 0 && node.children.len() > 0 {
                let ghost cs = t2->1;
                let ghost nodes = self.nodes@;
                proof {
                    let keys = nodes[t2.id()].keys;
                    assert(child_ids(cs)[0] == cs[0].id());
                    assert(child_lo(keys, None, 0) == None::<KeyView>);
                    assert(child_hi(keys, None, 0) == None::<KeyView>);
                    assert forall|k: KeyView| #[trigger] lookup(cs[0], nodes, k, (h - 1) as nat) == lookup(t2, nodes, k, h) by {
                        assert(route(keys, k) == 0);
                    }
                    lemma_leaves_all_single(cs[0], (h - 1) as nat);
                    assert(cs =~= seq![cs[0]]);
                    if self.order >= 3 {
                        lemma_fit_child(t2.id(), cs, nodes, h, self.order as int, self.order - 1, 0);
                    }
                }
                self.root_page = node.children[0];
                self.shape = Ghost(cs[0]);
                self.height = Ghost((h - 1) as nat);
            }
        }
        true
    }

    /// All records, in key order, read leaf after leaf along the leaf links.
    #[verifier::spinoff_prover]
    pub fn scan(&mut self) -> (r: Vec<Record>)
        requires
            old(self).wf() || old(self).size_spec() == 0,
        ensures
            old(self).wf() ==> final(self).wf(),
            final(self).same_state(old(self)),
            final(self).reads_as(old(self)),
            old(self).wf() ==> lists_in_order(old(self)@, record_pairs(r@)),
            old(self).size_spec() == 0 ==> r@.len() == 0,
    {
        if self.size == 0 {
            proof {
                assert(record_pairs(Seq::<Record>::empty()) =~= Seq::<(KeyView, Seq<u8>)>::empty());
                if self.wf() {
                    assert forall|k: KeyView| #[trigger] self.contents@.contains_key(k) implies false by {
                        assert(self.contents@.dom().contains(k));
                    }
                }
            }
            return Vec::new();
        }
        let ghost root = self.shape@;
        let ghost h = self.height@;
        let ghost nodes = self.nodes@;
        let ghost ls = leaves(root, h);
        let ghost es = entries(ls, nodes);
        proof {
            lemma_tree_entries(root, nodes, None, None, h);
            lemma_leafy(root, nodes, None, None, h);
            lemma_leaves_known(root, nodes, None, None, h);
            lemma_contents_in_order(root, nodes, h, self.contents@);
            assert(ls.subrange(0, 0) =~= Seq::<u64>::empty());
            assert(record_pairs(Seq::<Record>::empty()) =~= entries(ls.subrange(0, 0), nodes));
        }
        let mut results: Vec<Record> = Vec::with_capacity(self.size);
        let mut page_id = self.first_leaf();
        let ghost mut i: int = 0;
        loop
            invariant
                self.wf(),
                self.same_state(old(self)),
                root == self.shape@,
                h == self.height@,
                nodes == self.nodes@,
                ls == leaves(root, h),
                es == entries(ls, nodes),
                old(self).size_spec() != 0,
                lists_in_order(old(self)@, es),
                leafy(root, nodes, h),
                chain(ls, nodes, None),
                forall|q: int| 0 <= q < ls.len() ==> nodes.contains_key(#[trigger] ls[q]),
                0 <= i < ls.len(),
                page_id == ls[i],
                record_pairs(results@) == entries(ls.subrange(0, i), nodes),
            decreases ls.len() - i,
        {
            let _guard = self.lock_manager.read_lock(page_id);
            let (_page, node) = self.read_node(page_id);
            let ghost n = node@;
            let ghost done = entries(ls.subrange(0, i), nodes);
            proof {
                assert(n == nodes[ls[i]]);
            }
            let mut j: usize = 0;
            while j < node.keys.len()
                invariant
                    n == node@,
                    n.values.len() == n.keys.len(),
                    0 <= j <= n.keys.len(),
                    record_pairs(results@) == done + leaf_entries(n).subrange(0, j as int),
                decreases n.keys.len() - j,
            {
                let key = node.keys[j].duplicate();
                let value = copy_bytes(&node.values[j]);
                let ghost before = results@;
                results.push(Record { key, value });
                proof {
                    assert(record_pairs(results@) =~= record_pairs(before).push((n.keys[j as int], n.values[j as int])));
                    assert(done + leaf_entries(n).subrange(0, j + 1) =~= (done + leaf_entries(n).subrange(0, j as int)).push(
                        (n.keys[j as int], n.values[j as int]),
                    ));
                }
                j = j + 1;
            }
            proof {
                lemma_entries_prefix(ls, nodes, i);
                assert(leaf_entries(n).subrange(0, n.keys.len() as int) =~= leaf_entries(n));
            }
            match node.next_leaf {
                Some(next) => {
                    proof {
                        i = i + 1;
                    }
                    page_id = next;
                },
                None => {
                    proof {
                        assert(i + 1 == ls.len());
                        assert(ls.subrange(0, ls.len() as int) =~= ls);
                    }
                    return results;
                },
            }
        }
    }

    /// Range search: the records with keys in `[start, end]`, in key order,
    /// read from the leaf that holds `start` along the leaf links.
    #[verifier::rlimit(50)]
    #[verifier::spinoff_prover]
    pub fn range(&mut self, start: &Key, end: &Key) -> (r: Vec<Record>)
        requires
            old(self).wf(),
        ensures
            final(self).wf(),
            final(self).same_state(old(self)),
            final(self).reads_as(old(self)),
            lists_in_order(bounded(old(self)@, start@, end@), record_pairs(r@)),
    {
        let ghost root = self.shape@;
        let ghost h = self.height@;
        let ghost nodes = self.nodes@;
        let ghost m = self.contents@;
        let ghost ls = leaves(root, h);
        let ghost es = entries(ls, nodes);
        let ghost s = start@;
        let ghost e = end@;
        let mut results: Vec<Record> = Vec::new();
        let mut page_id = self.find_leaf(start);
        let ghost mut i: int = 0;
        proof {
            lemma_tree_entries(root, nodes, None, None, h);
            lemma_leafy(root, nodes, None, None, h);
            lemma_leaves_known(root, nodes, None, None, h);
            lemma_contents_in_order(root, nodes, h, m);
            i = lemma_leaf_for_index(root, nodes, None, None, h, s);
            lemma_entries_prefix(ls, nodes, i);
            let pre = entries(ls.subrange(0, i), nodes);
            assert(es.subrange(0, pre.len() as int) =~= pre);
            assert(record_pairs(results@) =~= Seq::<(KeyView, Seq<u8>)>::empty());
            lemma_key_order();
            assert forall|q: int| 0 <= q < pre.len() && in_bounds((#[trigger] es[q]).0, s, e) implies exists|a: int|
                0 <= a < record_pairs(results@).len() && #[trigger] record_pairs(results@)[a] == es[q] by {
                assert(es[q] == pre[q]);
                assert(key_lt(pre[q].0, s));
            }
        }
        loop
            invariant
                self.wf(),
                self.same_state(old(self)),
                root == self.shape@,
                h == self.height@,
                nodes == self.nodes@,
                m == old(self)@,
                s == start@,
                e == end@,
                ls == leaves(root, h),
                es == entries(ls, nodes),
                lists_in_order(m, es),
                leafy(root, nodes, h),
                chain(ls, nodes, None),
                forall|q: int| 0 <= q < ls.len() ==> nodes.contains_key(#[trigger] ls[q]),
                0 <= i < ls.len(),
                page_id == ls[i],
                es.subrange(0, entries(ls.subrange(0, i), nodes).len() as int) == entries(ls.subrange(0, i), nodes),
                range_so_far(record_pairs(results@), es, m, entries(ls.subrange(0, i), nodes).len() as int, s, e),
            decreases ls.len() - i,
        {
            let _guard = self.lock_manager.read_lock(page_id);
            let (_page, node) = self.read_node(page_id);
            let ghost n = node@;
            let ghost p = entries(ls.subrange(0, i), nodes).len() as int;
            proof {
                assert(n == nodes[ls[i]]);
                lemma_entries_prefix(ls, nodes, i);
                lemma_entries_concat(ls.subrange(0, i + 1), ls.subrange(i + 1, ls.len() as int), nodes);
                assert(ls.subrange(0, i + 1) + ls.subrange(i + 1, ls.len() as int) =~= ls);
                assert forall|j: int| 0 <= j < n.keys.len() implies #[trigger] es[p + j] == leaf_entries(n)[j] by {
                    assert(es[p + j] == entries(ls.subrange(0, i + 1), nodes)[p + j]);
                }
            }
            let mut j: usize = 0;
            while j < node.keys.len()
                invariant
                    n == node@,
                    n.values.len() == n.keys.len(),
                    0 <= j <= n.keys.len(),
                    es == entries(ls, nodes),
                    lists_in_order(m, es),
                    self.wf(),
                    self.same_state(old(self)),
                    m == old(self)@,
                    0 <= p,
                    p + n.keys.len() <= es.len(),
                    forall|jj: int| 0 <= jj < n.keys.len() ==> #[trigger] es[p + jj] == leaf_entries(n)[jj],
                    s == start@,
                    e == end@,
                    range_so_far(record_pairs(results@), es, m, p + j, s, e),
                decreases n.keys.len() - j,
            {
                proof {
                    assert(es[p + j] == leaf_entries(n)[j as int]);
                    assert(n.keys[j as int] == node.keys@[j as int]@);
                }
                let k = &node.keys[j];
                if compare_keys(k, start) == Cmp::Less {
                    proof {
                        lemma_key_order();
                        assert(!in_bounds(es[p + j].0, s, e));
                    }
                    j = j + 1;
                    continue;
                }
                if compare_keys(k, end) == Cmp::Greater {
                    proof {
                        lemma_key_order();
                        assert(keys_ascending(es));
                        assert forall|q: int| p + j <= q < es.len() implies !in_bounds((#[trigger] es[q]).0, s, e) by {
                            if q > p + j {
                                lemma_ascending_at(es, p + j, q);
                            }
                        }
                        lemma_range_done(record_pairs(results@), es, m, p + j, s, e);
                    }
                    return results;
                }
                let key = k.duplicate();
                let value = copy_bytes(&node.values[j]);
                let ghost before = record_pairs(results@);
                results.push(Record { key, value });
                proof {
                    let x = es[p + j];
                    let rp = record_pairs(results@);
                    assert(rp =~= before.push(x));
                    lemma_key_order();
                    assert(keys_ascending(es));
                    assert forall|a: int, q: int| 0 <= a < rp.len() && p + j + 1 <= q < es.len() implies key_lt(
                        (#[trigger] rp[a]).0,
                        (#[trigger] es[q]).0,
                    ) by {
                        if a < before.len() {
                            assert(rp[a] == before[a]);
                        } else {
                            assert(rp[a] == x);
                            lemma_ascending_at(es, p + j, q);
                        }
                    }
                    assert forall|q: int| 0 <= q < p + j + 1 && in_bounds((#[trigger] es[q]).0, s, e) implies exists|a: int|
                        0 <= a < rp.len() && #[trigger] rp[a] == es[q] by {
                        if q == p + j {
                            assert(rp[before.len() as int] == x);
                        } else {
                            let a = choose|a: int| 0 <= a < before.len() && #[trigger] before[a] == es[q];
                            assert(rp[a] == before[a]);
                        }
                    }
                    assert forall|a: int, b: int| 0 <= a < b < rp.len() implies key_lt(#[trigger] rp[a].0, #[trigger] rp[b].0) by {
                        if b == before.len() {
                            assert(rp[a] == before[a]);
                        } else {
                            assert(rp[a] == before[a] && rp[b] == before[b]);
                        }
                    }
                }
                j = j + 1;
            }
            proof {
                let p2 = entries(ls.subrange(0, i + 1), nodes).len() as int;
                assert(p2 == p + n.keys.len());
                assert(es.subrange(0, p2) =~= entries(ls.subrange(0, i + 1), nodes));
            }
            match node.next_leaf {
                Some(next) => {
                    proof {
                        i = i + 1;
                    }
                    page_id = next;
                },
                None => {
                    proof {
                        assert(i + 1 == ls.len());
                        assert(ls.subrange(0, ls.len() as int) =~= ls);
                        lemma_range_done(record_pairs(results@), es, m, es.len() as int, s, e);
                    }
                    return results;
                },
            }
        }
    }

    /// The leaves of a well-formed tree: each is a leaf node linked to the
    /// next one, the last to none.
    pub proof fn lemma_leaf_pages(&self)
        requires
            self.wf(),
        ensures
            self.leaf_pages().len() > 0,
            self.leaf_pages()[0] == self.first_leaf_spec(),
            forall|i: int|
                0 <= i < self.leaf_pages().len() ==> {
                    let n = self.node_at(#[trigger] self.leaf_pages()[i]);
                    &&& n.is_leaf
                    &&& n.values.len() == n.keys.len()
                    &&& n.next_leaf == if i + 1 < self.leaf_pages().len() {
                        Some(self.leaf_pages()[i + 1])
                    } else {
                        None
                    }
                },
    {
        lemma_tree_entries(self.shape@, self.nodes@, None, None, self.height@);
        lemma_leafy(self.shape@, self.nodes@, None, None, self.height@);
    }

    /// Read in order, the records of the leaves list what the tree holds in key order.
    pub proof fn lemma_records(&self)
        requires
            self.wf(),
        ensures
            self@.dom().finite(),
            self.records_before(0) == Seq::<(KeyView, Seq<u8>)>::empty(),
            self.records_before(self.leaf_pages().len() as int) == self.records(),
            lists_in_order(self@, self.records()),
    {
        let ls = self.leaf_pages();
        lemma_contents_in_order(self.shape@, self.nodes@, self.height@, self.contents@);
        assert(ls.subrange(0, 0) =~= Seq::<u64>::empty());
        assert(ls.subrange(0, ls.len() as int) =~= ls);
    }

    /// The records of the first `i + 1` leaves: those of the first `i` and
    /// then leaf `i`'s; both lists begin `records()`.
    #[verifier::rlimit(50)]
    pub proof fn lemma_records_step(&self, i: int)
        requires
            self.wf(),
            0 <= i < self.leaf_pages().len(),
        ensures
            self.records_before(i + 1) == self.records_before(i) + leaf_entries(self.node_at(self.leaf_pages()[i])),
            self.records().subrange(0, self.records_before(i).len() as int) == self.records_before(i),
            self.records().subrange(0, self.records_before(i + 1).len() as int) == self.records_before(i + 1),
            self.records_before(i + 1).len() <= self.records().len(),
    {
        let ls = self.leaf_pages();
        let nodes = self.nodes@;
        let es = self.records();
        lemma_entries_prefix(ls, nodes, i);
        assert(ls.subrange(0, i) + ls.subrange(i, ls.len() as int) =~= ls);
        lemma_entries_concat(ls.subrange(0, i), ls.subrange(i, ls.len() as int), nodes);
        let a = self.records_before(i);
        let b = self.records_before(i + 1);
        assert(es == a + entries(ls.subrange(i, ls.len() as int), nodes));
        assert(es.subrange(0, a.len() as int) =~= a);
        assert(es == b + entries(ls.subrange(i + 1, ls.len() as int), nodes));
        assert(es.subrange(0, b.len() as int) =~= b);
    }

    /// The leaf that holds `k` is leaf `i`, and all records of the leaves
    /// before it have keys below `k`.
    pub proof fn lemma_leaf_of(&self, k: KeyView) -> (i: int)
        requires
            self.wf(),
        ensures
            0 <= i < self.leaf_pages().len(),
            self.leaf_pages()[i] == self.leaf_of(k),
            forall|q: int| 0 <= q < self.records_before(i).len() ==> key_lt((#[trigger] self.records_before(i)[q]).0, k),
            self.node_at(self.leaf_of(k)).is_leaf,
            self@.contains_key(k) <==> self.node_at(self.leaf_of(k)).keys.contains(k),
            self@.contains_key(k) ==> leaf_get(self.node_at(self.leaf_of(k)), k) == Some(self@[k]),
    {
        let i = lemma_leaf_for_index(self.shape@, self.nodes@, None, None, self.height@, k);
        self.lemma_leaf_pages();
        lemma_lookup_leaf(self.shape@, self.nodes@, None, None, self.height@, k);
        i
    }

    /// The root page is always stored, under its own id, and its data is the
    /// encoding of the root node; every node of the tree is likewise stored.
    pub proof fn lemma_root_stored(&self)
        requires
            self.wf(),
        ensures
            self.pages_spec().contains_key(self.root_spec()),
            self.pages_spec()[self.root_spec()].header.page_id == self.root_spec(),
            stored_node(self.pages_spec()[self.root_spec()].data, self.node_at(self.root_spec())),
            self.root_spec() < self.allocated_spec(),
            self.height_spec() == 0 ==> self.node_at(self.root_spec()).is_leaf,
            self.height_spec() > 0 ==> !self.node_at(self.root_spec()).is_leaf,
    {
        lemma_leaf_iff_height(self.shape@, self.nodes@, None, None, self.height@);
    }

    /// Every page of the tree carries a checksum that verifies, but for the
    /// empty root leaf a new in-memory tree starts with, which stays as written
    /// until an operation rewrites it: a page whose node holds a key, or is
    /// internal, always verifies. The root and the leaves are pages of the tree.
    pub proof fn lemma_pages_checksummed(&self)
        requires
            self.wf(),
        ensures
            self.node_pages().contains(self.root_spec()),
            forall|i: int| 0 <= i < self.leaf_pages().len() ==> self.node_pages().contains(#[trigger] self.leaf_pages()[i]),
            forall|x: u64| #[trigger] self.node_pages().contains(x) ==> self.pages_spec().contains_key(x) && (checksum_ok(
                self.pages_spec()[x],
            ) || self.pages_spec()[x] == unsummed_empty_leaf(x)),
            forall|x: u64| #[trigger] self.node_pages().contains(x) && (self.node_at(x).keys.len() > 0 || !self.node_at(
                x,
            ).is_leaf) ==> checksum_ok(self.pages_spec()[x]),
            self.height_spec() == 0 ==> forall|k: KeyView| #[trigger] self.leaf_of(k) == self.root_spec(),
    {
        lemma_leaf_iff_height(self.shape@, self.nodes@, None, None, self.height@);
        lemma_leaves_known(self.shape@, self.nodes@, None, None, self.height@);
        let e = empty_node(true);
        assert forall|x: u64| #[trigger] self.node_pages().contains(x) && (self.node_at(x).keys.len() > 0
            || !self.node_at(x).is_leaf) implies checksum_ok(self.pages_spec()[x]) by {
            let p = self.pages_spec()[x];
            if p == unsummed_empty_leaf(x) {
                assert(p.data.subrange(0, p.data.len() as int) =~= p.data);
                lemma_node_roundtrip(p.data, e);
                lemma_node_roundtrip(p.data, self.node_at(x));
            }
        }
    }

    /// The pages that hold the tree's nodes.
    pub closed spec fn node_pages(&self) -> Set<u64> {
        self.nodes@.dom()
    }

    /// States agreeing in everything the tree depends on agree in what it holds.
    pub proof fn lemma_same_state(&self, other: &Self)
        requires
            other.same_state(self) || other == self,
        ensures
            self.wf() ==> other.wf(),
            other@ == self@,
            other.leaf_pages() == self.leaf_pages(),
            other.records() == self.records(),
            forall|i: int| #[trigger] other.records_before(i) == self.records_before(i),
            forall|id: u64| #[trigger] other.node_at(id) == self.node_at(id),
            other.first_leaf_spec() == self.first_leaf_spec(),
            forall|k: KeyView| #[trigger] other.leaf_of(k) == self.leaf_of(k),
            other.root_spec() == self.root_spec(),
            other.size_spec() == self.size_spec(),
            other.order_spec() == self.order_spec(),
            other.height_spec() == self.height_spec(),
            other.allocated_spec() == self.allocated_spec(),
            other.pages_spec() == self.pages_spec(),
    {
    }

    /// Reads the node stored in page `page_id`, if the store holds one that decodes.
    pub(crate) fn read_page_node(&mut self, page_id: u64) -> (r: Option<Node>)
        requires
            old(self).wf(),
        ensures
            final(self).wf(),
            final(self).same_state(old(self)),
            final(self).reads_as(old(self)),
            match r {
                Some(n) => old(self).pages_spec().contains_key(page_id) && stored_node(
                    old(self).pages_spec()[page_id].data,
                    n@,
                ),
                None => !old(self).pages_spec().contains_key(page_id) || forall|m: NodeView|
                    !stored_node(old(self).pages_spec()[page_id].data, m),
            },
            old(self).leaf_pages().contains(page_id) ==> (r matches Some(n) && n@ == old(self).node_at(page_id)),
    {
        proof {
            if self.leaf_pages().contains(page_id) {
                lemma_leaves_known(self.shape@, self.nodes@, None, None, self.height@);
            }
        }
        let _guard = self.lock_manager.read_lock(page_id);
        let page = match self.storage.read_page(page_id) {
            Some(p) => p,
            None => return None,
        };
        page.get_node()
    }

    /// The page of the first (leftmost) leaf.
    #[verifier::spinoff_prover]
    pub fn first_leaf(&mut self) -> (r: u64)
        requires
            old(self).wf(),
        ensures
            final(self).wf(),
            final(self).same_state(old(self)),
            final(self).reads_as(old(self)),
            r == old(self).first_leaf_spec(),
            r == old(self).leaf_pages()[0],
    {
        let ghost root = self.shape@;
        let ghost hh = self.height@;
        let ghost nodes = self.nodes@;
        let mut page_id = self.root_page;
        let ghost mut t = root;
        let ghost mut lo: Option<KeyView> = None;
        let ghost mut hi: Option<KeyView> = None;
        let ghost mut h = hh;
        loop
            invariant
                self.wf(),
                self.same_state(old(self)),
                nodes == self.nodes@,
                wf_shape(t, nodes, lo, hi, h),
                t.id() == page_id,
                leftmost(root, hh) == leftmost(t, h),
                root == self.shape@,
                hh == self.height@,
            decreases h,
        {
            let _guard = self.lock_manager.read_lock(page_id);
            let (_page, node) = self.read_node(page_id);
            if node.is_leaf() {
                proof {
                    old(self).lemma_leaf_pages();
                }
                return page_id;
            }
            proof {
                let keys = nodes[page_id].keys;
                let cs = t->1;
                assert(child_ids(cs)[0] == cs[0].id());
                hi = child_hi(keys, hi, 0);
                t = cs[0];
                h = (h - 1) as nat;
            }
            page_id = node.children[0];
        }
    }

    /// Get the value stored for `key`.
    #[verifier::spinoff_prover]
    pub fn get(&mut self, key: &Key) -> (r: Option<Value>)
        requires
            old(self).wf(),
        ensures
            final(self).wf(),
            final(self).same_state(old(self)),
            final(self).reads_as(old(self)),
            r is Some <==> old(self)@.contains_key(key@),
            r matches Some(v) ==> v@ == old(self)@[key@],
    {
        let leaf_id = self.find_leaf(key);
        let _guard = self.lock_manager.read_lock(leaf_id);
        proof {
            lemma_lookup_leaf(self.shape@, self.nodes@, None, None, self.height@, key@);
            assert(lookup(self.shape@, self.nodes@, key@, self.height@) == if self.contents@.contains_key(key@) {
                Some(self.contents@[key@])
            } else {
                None
            });
        }
        let page = match self.storage.read_page(leaf_id) {
            Some(p) => p,
            None => return None,
        };
        let node = match page.get_node() {
            Some(n) => n,
            None => return None,
        };
        let ghost n = node@;
        let ghost expected = if old(self)@.contains_key(key@) {
            Some(old(self)@[key@])
        } else {
            None
        };
        assert(leaf_get(n, key@) == expected);
        let mut i: usize = 0;
        while i < node.keys.len()
            invariant
                self.wf(),
                self.same_state(old(self)),
                n == node@,
                sorted_strict(n.keys),
                n.values.len() == n.keys.len(),
                leaf_get(n, key@) == expected,
                expected == if old(self)@.contains_key(key@) {
                    Some(old(self)@[key@])
                } else {
                    None
                },
                i <= n.keys.len(),
                forall|j: int| 0 <= j < i ==> #[trigger] n.keys[j] != key@,
            decreases n.keys.len() - i,
        {
            match compare_keys(&node.keys[i], key) {
                Cmp::Equal => {
                    proof {
                        assert(n.keys[i as int] == node.keys@[i as int]@);
                        assert(n.values[i as int] == node.values@[i as int]@);
                        lemma_key_index(n.keys, i as int);
                        assert(n.keys[i as int] == key@);
                        assert(leaf_get(n, key@) == Some(n.values[i as int]));
                        assert(expected == Some(n.values[i as int]));
                    }
                    let v = copy_bytes(&node.values[i]);
                    assert(v@ == n.values[i as int]);
                    return Some(v);
                },
                _ => {},
            }
            i = i + 1;
        }
        None
    }
}

impl BPlusTree<MemoryStorage> {
    /// Create a new in-memory B+Tree of the given order, with an empty root leaf.
    #[verifier::spinoff_prover]
    pub fn memory(order: usize) -> (r: Self)
        ensures
            r.wf(),
            r@ == Map::<KeyView, Seq<u8>>::empty(),
            r.order_spec() == order,
            r.height_spec() == 0,
            r.root_spec() == 0,
            r.allocated_spec() == 1,
            order >= 3 ==> r.below_split_size(),
    {
        let mut storage = MemoryStorage::new();
        let root_page = storage.alloc_page();
        let root_node = Node::new_leaf();
        let mut page = Page::new_leaf(root_page);
        page.set_node(&root_node);
        storage.write_page(&page);
        let ghost nodes = Map::<u64, NodeView>::empty().insert(root_page, root_node@);
        let r = BPlusTree {
            order,
            storage,
            lock_manager: LockManager::new(),
            root_page,
            size: 0,
            shape: Ghost(Shape::Leaf(root_page)),
            height: Ghost(0),
            nodes: Ghost(nodes),
            contents: Ghost(Map::empty()),
        };
        proof {
            assert(leaf_ok(root_node@, None, None));
            assert forall|k: KeyView| #[trigger] lookup(r.shape@, r.nodes@, k, 0) == if r.contents@.contains_key(k) {
                Some(r.contents@[k])
            } else {
                None
            } by {
                assert(!root_node@.keys.contains(k));
            }
        }
        r
    }

    /// A tree over an empty in-memory store with the given root page and size;
    /// its pages are not there, so it is not a well-formed tree.
    pub fn open_memory(order: usize, root_page: u64, size: usize) -> (r: Self)
        ensures
            r.order_spec() == order,
            r.root_spec() == root_page,
            r.size_spec() == size,
            r.pages_spec() == Map::<u64, PageView>::empty(),
            r.allocated_spec() == 0,
    {
        BPlusTree {
            order,
            storage: MemoryStorage::new(),
            lock_manager: LockManager::new(),
            root_page,
            size,
            shape: Ghost(Shape::Leaf(root_page)),
            height: Ghost(0),
            nodes: Ghost(Map::empty()),
            contents: Ghost(Map::empty()),
        }
    }
}

} // verus!
