//! How full the nodes of a tree may be: a leaf holds fewer than `order - 1`
//! keys (it is split on reaching that many), an internal node at most a cap.
//! Inserts split an internal node on reaching `order - 1` keys, so they keep
//! the cap `order - 2`; a merge may fill an internal node to `order - 1`, so
//! the cap that every operation keeps is `order - 1`.
use vstd::prelude::*;
use crate::key::KeyView;
use crate::node::NodeView;
use crate::shape::{Shape, wf_shape, has_id, child_lo, child_hi, lemma_child_ids};
use crate::insert_proofs::{lemma_ids_known, lemma_inner_ids};

verus! {

/// A node within the size the order allows: a leaf holds fewer than
/// `o - 1` keys, an internal node at most `cap`.
pub open spec fn fits(n: NodeView, o: int, cap: int) -> bool {
    if n.is_leaf {
        n.keys.len() < o - 1
    } else {
        n.keys.len() <= cap
    }
}

/// Every node of the subtree is within the size the order allows.
pub open spec fn all_fit(t: Shape, nodes: Map<u64, NodeView>, h: nat, o: int, cap: int) -> bool {
    forall|x: u64| #[trigger] has_id(t, x, h) ==> fits(nodes[x], o, cap)
}

/// The root and each child of an internal node fit, so the node's subtree does.
pub proof fn lemma_fit_inner(id: u64, cs: Seq<Shape>, nodes: Map<u64, NodeView>, h: nat, o: int, cap: int)
    requires
        h > 0,
        fits(nodes[id], o, cap),
        forall|i: int| 0 <= i < cs.len() ==> all_fit(#[trigger] cs[i], nodes, (h - 1) as nat, o, cap),
    ensures
        all_fit(Shape::Inner(id, cs), nodes, h, o, cap),
{
    assert forall|x: u64| #[trigger] has_id(Shape::Inner(id, cs), x, h) implies fits(nodes[x], o, cap) by {
        lemma_inner_ids(id, cs, h, x);
        if x != id {
            let i = choose|i: int| 0 <= i < cs.len() && has_id(cs[i], x, (h - 1) as nat);
            assert(all_fit(cs[i], nodes, (h - 1) as nat, o, cap));
        }
    }
}

/// The root and each child of a fitting internal node fit.
pub proof fn lemma_fit_child(id: u64, cs: Seq<Shape>, nodes: Map<u64, NodeView>, h: nat, o: int, cap: int, i: int)
    requires
        h > 0,
        all_fit(Shape::Inner(id, cs), nodes, h, o, cap),
        0 <= i < cs.len(),
    ensures
        all_fit(cs[i], nodes, (h - 1) as nat, o, cap),
        fits(nodes[id], o, cap),
{
    assert(has_id(Shape::Inner(id, cs), id, h));
    assert forall|x: u64| #[trigger] has_id(cs[i], x, (h - 1) as nat) implies fits(nodes[x], o, cap) by {
        lemma_child_ids(id, cs, i, x, h);
    }
}

/// A subtree whose pages kept their nodes still fits.
pub proof fn lemma_fit_frame(t: Shape, n0: Map<u64, NodeView>, n1: Map<u64, NodeView>, h: nat, o: int, cap: int)
    requires
        all_fit(t, n0, h, o, cap),
        forall|x: u64| #[trigger] has_id(t, x, h) ==> n1[x] == n0[x],
    ensures
        all_fit(t, n1, h, o, cap),
{
}

/// A subtree made of pages of a fitting subtree, with the same nodes, fits.
pub proof fn lemma_fit_subset(t: Shape, t2: Shape, n: Map<u64, NodeView>, h: nat, o: int, cap: int)
    requires
        all_fit(t, n, h, o, cap),
        forall|x: u64| #[trigger] has_id(t2, x, h) ==> has_id(t, x, h),
    ensures
        all_fit(t2, n, h, o, cap),
{
}

/// Child `pos` of a fitting node rebuilt as the subtrees `mid`: when they fit,
/// the parent's node fits and no other page of the node's subtree changed,
/// the rebuilt node's subtree fits.
pub proof fn lemma_fit_replace(
    pid: u64,
    cs: Seq<Shape>,
    n0: Map<u64, NodeView>,
    n1: Map<u64, NodeView>,
    lo: Option<KeyView>,
    hi: Option<KeyView>,
    h: nat,
    o: int, cap: int,
    pos: int,
    mid: Seq<Shape>,
)
    requires
        wf_shape(Shape::Inner(pid, cs), n0, lo, hi, h),
        all_fit(Shape::Inner(pid, cs), n0, h, o, cap),
        0 <= pos < cs.len(),
        forall|x: u64|
            #[trigger] n0.contains_key(x) && x != pid && !has_id(cs[pos], x, (h - 1) as nat) ==> n1[x] == n0[x],
        fits(n1[pid], o, cap),
        forall|m: int| 0 <= m < mid.len() ==> all_fit(#[trigger] mid[m], n1, (h - 1) as nat, o, cap),
    ensures
        all_fit(
            Shape::Inner(pid, cs.subrange(0, pos) + mid + cs.subrange(pos + 1, cs.len() as int)),
            n1,
            h,
            o,
            cap,
        ),
{
    let t = Shape::Inner(pid, cs);
    assert(t->1 == cs);
    let hc = (h - 1) as nat;
    let cs2 = cs.subrange(0, pos) + mid + cs.subrange(pos + 1, cs.len() as int);
    lemma_ids_known(t, n0, lo, hi, h);
    assert forall|i: int| 0 <= i < cs2.len() implies all_fit(#[trigger] cs2[i], n1, hc, o, cap) by {
        if pos <= i < pos + mid.len() {
            assert(cs2[i] == mid[i - pos]);
        } else {
            let k = if i < pos { i } else { i - mid.len() + 1 };
            assert(cs2[i] == cs[k]);
            assert(k != pos);
            lemma_fit_child(pid, cs, n0, h, o, cap, k);
            assert forall|x: u64| #[trigger] has_id(cs[k], x, hc) implies n1[x] == n0[x] by {
                lemma_child_ids(pid, cs, k, x, h);
                assert(!has_id(cs[pos], x, hc));
                assert(!has_id(cs[k], pid, hc));
            }
        }
    }
    lemma_fit_inner(pid, cs2, n1, h, o, cap);
}

/// A fitting node's root replaced by another fitting node, its children's
/// pages kept: the subtree still fits.
pub proof fn lemma_fit_new_root(pid: u64, cs: Seq<Shape>, n1: Map<u64, NodeView>, n2: Map<u64, NodeView>, h: nat, o: int, cap: int)
    requires
        h > 0,
        all_fit(Shape::Inner(pid, cs), n1, h, o, cap),
        fits(n2[pid], o, cap),
        forall|i: int, x: u64| 0 <= i < cs.len() && #[trigger] has_id(cs[i], x, (h - 1) as nat) ==> n2[x] == n1[x],
    ensures
        all_fit(Shape::Inner(pid, cs), n2, h, o, cap),
{
    assert forall|i: int| 0 <= i < cs.len() implies all_fit(#[trigger] cs[i], n2, (h - 1) as nat, o, cap) by {
        lemma_fit_child(pid, cs, n1, h, o, cap, i);
    }
    lemma_fit_inner(pid, cs, n2, h, o, cap);
}

/// The children of a fitting internal node shared out between two new
/// fitting nodes, their pages kept: both new subtrees fit.
pub proof fn lemma_fit_split(
    pid: u64,
    rid: u64,
    cs: Seq<Shape>,
    n1: Map<u64, NodeView>,
    n3: Map<u64, NodeView>,
    h: nat,
    o: int, cap: int,
    mid: int,
)
    requires
        h > 0,
        all_fit(Shape::Inner(pid, cs), n1, h, o, cap),
        fits(n3[pid], o, cap),
        fits(n3[rid], o, cap),
        0 <= mid + 1 <= cs.len(),
        forall|i: int, x: u64| 0 <= i < cs.len() && #[trigger] has_id(cs[i], x, (h - 1) as nat) ==> n3[x] == n1[x],
    ensures
        all_fit(Shape::Inner(pid, cs.subrange(0, mid + 1)), n3, h, o, cap),
        all_fit(Shape::Inner(rid, cs.subrange(mid + 1, cs.len() as int)), n3, h, o, cap),
{
    let a = cs.subrange(0, mid + 1);
    let b = cs.subrange(mid + 1, cs.len() as int);
    assert forall|i: int| 0 <= i < a.len() implies all_fit(#[trigger] a[i], n3, (h - 1) as nat, o, cap) by {
        lemma_fit_child(pid, cs, n1, h, o, cap, i);
        assert(a[i] == cs[i]);
    }
    assert forall|i: int| 0 <= i < b.len() implies all_fit(#[trigger] b[i], n3, (h - 1) as nat, o, cap) by {
        lemma_fit_child(pid, cs, n1, h, o, cap, mid + 1 + i);
        assert(b[i] == cs[mid + 1 + i]);
    }
    lemma_fit_inner(pid, a, n3, h, o, cap);
    lemma_fit_inner(rid, b, n3, h, o, cap);
}

} // verus!
