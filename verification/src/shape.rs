//! The shape of a tree of pages and what it holds: well-formedness, the key
//! ranges of nodes, and lookup by routing from a node down to a leaf.
use vstd::prelude::*;
use crate::key::{KeyView, key_lt, key_le, lemma_key_order};
use crate::node::NodeView;

verus! {

/// The shape of a subtree: its page id and, for an internal node, the
/// shapes of its children in order.
pub enum Shape {
    Leaf(u64),
    Inner(u64, Seq<Shape>),
}

impl Shape {
    pub open spec fn id(self) -> u64 {
        match self {
            Shape::Leaf(id) => id,
            Shape::Inner(id, _) => id,
        }
    }
}


/// `k` is at or above the lower bound (`None`: no bound).
pub open spec fn ge_lo(k: KeyView, lo: Option<KeyView>) -> bool {
    match lo {
        None => true,
        Some(l) => key_le(l, k),
    }
}

/// `k` is below the upper bound (`None`: no bound).
pub open spec fn lt_hi(k: KeyView, hi: Option<KeyView>) -> bool {
    match hi {
        None => true,
        Some(h) => key_lt(k, h),
    }
}

/// `k` is at or below the upper bound (`None`: no bound).
pub open spec fn le_hi(k: KeyView, hi: Option<KeyView>) -> bool {
    match hi {
        None => true,
        Some(h) => key_le(k, h),
    }
}

pub open spec fn in_range(k: KeyView, lo: Option<KeyView>, hi: Option<KeyView>) -> bool {
    ge_lo(k, lo) && lt_hi(k, hi)
}

pub open spec fn sorted_strict(ks: Seq<KeyView>) -> bool {
    forall|i: int, j: int| 0 <= i < j < ks.len() ==> key_lt(#[trigger] ks[i], #[trigger] ks[j])
}

pub open spec fn sorted_le(ks: Seq<KeyView>) -> bool {
    forall|i: int, j: int| 0 <= i < j < ks.len() ==> key_le(#[trigger] ks[i], #[trigger] ks[j])
}

/// Lower bound of the key range of child `i`.
pub open spec fn child_lo(keys: Seq<KeyView>, lo: Option<KeyView>, i: int) -> Option<KeyView> {
    if i == 0 {
        lo
    } else {
        Some(keys[i - 1])
    }
}

/// Upper bound of the key range of child `i`.
pub open spec fn child_hi(keys: Seq<KeyView>, hi: Option<KeyView>, i: int) -> Option<KeyView> {
    if i == keys.len() {
        hi
    } else {
        Some(keys[i])
    }
}

/// The page ids of a sequence of subtrees.
pub open spec fn child_ids(cs: Seq<Shape>) -> Seq<u64> {
    cs.map_values(|c: Shape| c.id())
}

/// A leaf: keys strictly ascending inside `[lo, hi)`, one value per key.
pub open spec fn leaf_ok(n: NodeView, lo: Option<KeyView>, hi: Option<KeyView>) -> bool {
    &&& n.is_leaf
    &&& sorted_strict(n.keys)
    &&& n.values.len() == n.keys.len()
    &&& forall|i: int| 0 <= i < n.keys.len() ==> in_range(#[trigger] n.keys[i], lo, hi)
}

/// An internal node: separators ascending inside `[lo, hi]`, one more child than separators.
pub open spec fn inner_ok(n: NodeView, cs: Seq<Shape>, lo: Option<KeyView>, hi: Option<KeyView>) -> bool {
    &&& !n.is_leaf
    &&& cs.len() == n.keys.len() + 1
    &&& n.children == child_ids(cs)
    &&& sorted_le(n.keys)
    &&& forall|i: int| 0 <= i < n.keys.len() ==> ge_lo(#[trigger] n.keys[i], lo) && le_hi(n.keys[i], hi)
}

/// Page `x` belongs to the subtree of height `h`.
pub open spec fn has_id(t: Shape, x: u64, h: nat) -> bool
    decreases h,
{
    match t {
        Shape::Leaf(id) => id == x,
        Shape::Inner(id, cs) => id == x || (h > 0 && exists|i: int|
            0 <= i < cs.len() && has_id(cs[i], x, (h - 1) as nat)),
    }
}

/// The subtree is a well-formed B+tree of height `h` over `nodes`, with its
/// keys in `[lo, hi)`, every page in it at most once.
pub open spec fn wf_shape(
    t: Shape,
    nodes: Map<u64, NodeView>,
    lo: Option<KeyView>,
    hi: Option<KeyView>,
    h: nat,
) -> bool
    decreases h,
{
    match t {
        Shape::Leaf(id) => h == 0 && nodes.contains_key(id) && leaf_ok(nodes[id], lo, hi),
        Shape::Inner(id, cs) => {
            &&& h > 0
            &&& nodes.contains_key(id)
            &&& inner_ok(nodes[id], cs, lo, hi)
            &&& forall|i: int|
                0 <= i < cs.len() ==> wf_shape(
                    #[trigger] cs[i],
                    nodes,
                    child_lo(nodes[id].keys, lo, i),
                    child_hi(nodes[id].keys, hi, i),
                    (h - 1) as nat,
                )
            &&& forall|i: int| 0 <= i < cs.len() ==> !has_id(#[trigger] cs[i], id, (h - 1) as nat)
            &&& forall|i: int, j: int, x: u64|
                0 <= i < cs.len() && 0 <= j < cs.len() && i != j && #[trigger] has_id(
                    cs[i],
                    x,
                    (h - 1) as nat,
                ) ==> !#[trigger] has_id(cs[j], x, (h - 1) as nat)
        },
    }
}

/// Index of the first key above `k`, or the number of keys.
pub open spec fn route(ks: Seq<KeyView>, k: KeyView) -> int
    decreases ks.len(),
{
    if ks.len() == 0 {
        0
    } else if key_lt(k, ks[0]) {
        0
    } else {
        1 + route(ks.drop_first(), k)
    }
}

/// The index of key `k` in a leaf's keys.
pub open spec fn key_index(ks: Seq<KeyView>, k: KeyView) -> int {
    choose|i: int| 0 <= i < ks.len() && ks[i] == k
}

/// The value a leaf holds for `k`.
pub open spec fn leaf_get(n: NodeView, k: KeyView) -> Option<Seq<u8>> {
    if n.keys.contains(k) {
        Some(n.values[key_index(n.keys, k)])
    } else {
        None
    }
}

/// The value found for `k` by routing from the root of a subtree of height `h` to a leaf.
pub open spec fn lookup(t: Shape, nodes: Map<u64, NodeView>, k: KeyView, h: nat) -> Option<Seq<u8>>
    decreases h,
{
    match t {
        Shape::Leaf(id) => leaf_get(nodes[id], k),
        Shape::Inner(id, cs) => {
            let i = route(nodes[id].keys, k);
            if h > 0 && 0 <= i < cs.len() {
                lookup(cs[i], nodes, k, (h - 1) as nat)
            } else {
                None
            }
        },
    }
}

/// The leaf page that routing for `k` reaches.
pub open spec fn leaf_for(t: Shape, nodes: Map<u64, NodeView>, k: KeyView, h: nat) -> u64
    decreases h,
{
    match t {
        Shape::Leaf(id) => id,
        Shape::Inner(id, cs) => {
            let i = route(nodes[id].keys, k);
            if h > 0 && 0 <= i < cs.len() {
                leaf_for(cs[i], nodes, k, (h - 1) as nat)
            } else {
                id
            }
        },
    }
}

/// The leftmost leaf page of a subtree.
pub open spec fn leftmost(t: Shape, h: nat) -> u64
    decreases h,
{
    match t {
        Shape::Leaf(id) => id,
        Shape::Inner(id, cs) => if h > 0 && cs.len() > 0 {
            leftmost(cs[0], (h - 1) as nat)
        } else {
            id
        },
    }
}

// ---------------------------------------------------------------------------
// Routing
// ---------------------------------------------------------------------------

pub proof fn lemma_route(ks: Seq<KeyView>, k: KeyView)
    ensures
        0 <= route(ks, k) <= ks.len(),
        forall|j: int| 0 <= j < route(ks, k) ==> !key_lt(k, #[trigger] ks[j]),
        route(ks, k) < ks.len() ==> key_lt(k, ks[route(ks, k)]),
    decreases ks.len(),
{
    if ks.len() > 0 && !key_lt(k, ks[0]) {
        lemma_route(ks.drop_first(), k);
        assert forall|j: int| 0 <= j < route(ks, k) implies !key_lt(k, #[trigger] ks[j]) by {
            if j > 0 {
                assert(ks[j] == ks.drop_first()[j - 1]);
            }
        }
    }
}

/// The first index whose key is above `k` is unique.
pub proof fn lemma_route_unique(ks: Seq<KeyView>, k: KeyView, i: int)
    requires
        0 <= i <= ks.len(),
        forall|j: int| 0 <= j < i ==> !key_lt(k, #[trigger] ks[j]),
        i < ks.len() ==> key_lt(k, ks[i]),
    ensures
        route(ks, k) == i,
{
    lemma_route(ks, k);
    let r = route(ks, k);
    if r < i {
        assert(!key_lt(k, ks[r]));
    }
    if r > i {
        assert(!key_lt(k, ks[i]));
    }
}

/// In ascending separators, routing to `i` puts `k` in the range of child `i`.
pub proof fn lemma_route_in_child(
    ks: Seq<KeyView>,
    k: KeyView,
    lo: Option<KeyView>,
    hi: Option<KeyView>,
)
    requires
        in_range(k, lo, hi),
    ensures
        in_range(k, child_lo(ks, lo, route(ks, k)), child_hi(ks, hi, route(ks, k))),
{
    lemma_route(ks, k);
    lemma_key_order();
    let r = route(ks, k);
    if r > 0 {
        assert(!key_lt(k, ks[r - 1]));
    }
}

pub proof fn lemma_key_index(ks: Seq<KeyView>, i: int)
    requires
        sorted_strict(ks),
        0 <= i < ks.len(),
    ensures
        key_index(ks, ks[i]) == i,
        ks.contains(ks[i]),
{
    lemma_key_order();
    let j = key_index(ks, ks[i]);
    assert(0 <= j < ks.len() && ks[j] == ks[i]);
    if j < i {
        assert(key_lt(ks[j], ks[i]));
    }
    if j > i {
        assert(key_lt(ks[i], ks[j]));
    }
}

// ---------------------------------------------------------------------------
// Frame: a subtree reads only its own pages
// ---------------------------------------------------------------------------

pub open spec fn same_on(t: Shape, h: nat, n1: Map<u64, NodeView>, n2: Map<u64, NodeView>) -> bool {
    forall|x: u64| #[trigger] has_id(t, x, h) ==> n2.contains_key(x) && n1.contains_key(x) && n2[x]
        == n1[x]
}

/// The pages of a child belong to the subtree.
pub proof fn lemma_child_ids(id: u64, cs: Seq<Shape>, i: int, x: u64, h: nat)
    requires
        0 <= i < cs.len(),
        h > 0,
        has_id(cs[i], x, (h - 1) as nat),
    ensures
        has_id(Shape::Inner(id, cs), x, h),
{
    let t = Shape::Inner(id, cs);
    assert(t->1 == cs);
    assert(exists|j: int| 0 <= j < cs.len() && #[trigger] has_id(cs[j], x, (h - 1) as nat));
    assert(has_id(t, x, h));
}

/// The root page belongs to the subtree.
pub proof fn lemma_has_own_id(t: Shape, h: nat)
    ensures
        has_id(t, t.id(), h),
{
}

#[verifier::spinoff_prover]
pub proof fn lemma_frame(
    t: Shape,
    n1: Map<u64, NodeView>,
    n2: Map<u64, NodeView>,
    lo: Option<KeyView>,
    hi: Option<KeyView>,
    h: nat,
)
    requires
        wf_shape(t, n1, lo, hi, h),
        same_on(t, h, n1, n2),
    ensures
        wf_shape(t, n2, lo, hi, h),
        forall|k: KeyView| #[trigger] lookup(t, n2, k, h) == lookup(t, n1, k, h),
        forall|k: KeyView| #[trigger] leaf_for(t, n2, k, h) == leaf_for(t, n1, k, h),
    decreases h,
{
    assert(has_id(t, t.id(), h));
    match t {
        Shape::Leaf(id) => {},
        Shape::Inner(id, cs) => {
            let keys = n1[id].keys;
            assert forall|i: int| 0 <= i < cs.len() implies wf_shape(
                #[trigger] cs[i],
                n2,
                child_lo(keys, lo, i),
                child_hi(keys, hi, i),
                (h - 1) as nat,
            ) && (forall|k: KeyView| #[trigger] lookup(cs[i], n2, k, (h - 1) as nat) == lookup(
                cs[i],
                n1,
                k,
                (h - 1) as nat,
            )) && (forall|k: KeyView| #[trigger] leaf_for(cs[i], n2, k, (h - 1) as nat) == leaf_for(
                cs[i],
                n1,
                k,
                (h - 1) as nat,
            )) by {
                assert forall|x: u64| #[trigger] has_id(cs[i], x, (h - 1) as nat) implies n2.contains_key(x)
                    && n1.contains_key(x) && n2[x] == n1[x] by {
                    lemma_child_ids(id, cs, i, x, h);
                }
                lemma_frame(
                    cs[i],
                    n1,
                    n2,
                    child_lo(keys, lo, i),
                    child_hi(keys, hi, i),
                    (h - 1) as nat,
                );
            }
            assert forall|k: KeyView| #[trigger] lookup(t, n2, k, h) == lookup(t, n1, k, h) by {
                let i = route(keys, k);
                if 0 <= i < cs.len() {
                    assert(lookup(cs[i], n2, k, (h - 1) as nat) == lookup(cs[i], n1, k, (h - 1) as nat));
                }
            }
            assert forall|k: KeyView| #[trigger] leaf_for(t, n2, k, h) == leaf_for(t, n1, k, h) by {
                let i = route(keys, k);
                if 0 <= i < cs.len() {
                    assert(leaf_for(cs[i], n2, k, (h - 1) as nat) == leaf_for(
                        cs[i],
                        n1,
                        k,
                        (h - 1) as nat,
                    ));
                }
            }
        },
    }
}

} // verus!
