//! The leaves of a tree read left to right, the `next_leaf` links that chain
//! them, and the records they hold in that order.
use vstd::prelude::*;
use crate::key::{KeyView, key_lt, key_le, lemma_key_order};
use crate::node::NodeView;
use crate::delete_proofs::split_shapes;
use crate::shape::{
    Shape, wf_shape, has_id, lookup, leaf_for, leftmost, route, in_range, ge_lo, child_lo,
    child_hi, lemma_route, lemma_route_in_child, lemma_key_index, lemma_child_ids,
};

verus! {

/// The leaf pages of a subtree, left to right.
pub open spec fn leaves(t: Shape, h: nat) -> Seq<u64>
    decreases h, 0nat,
{
    match t {
        Shape::Leaf(id) => seq![id],
        Shape::Inner(_, cs) => if h > 0 {
            leaves_all(cs, (h - 1) as nat)
        } else {
            Seq::empty()
        },
    }
}

/// The leaf pages of a sequence of sibling subtrees, left to right.
pub open spec fn leaves_all(cs: Seq<Shape>, h: nat) -> Seq<u64>
    decreases h, cs.len() + 1,
{
    if cs.len() == 0 {
        Seq::empty()
    } else {
        leaves_all(cs.drop_last(), h) + leaves(cs.last(), h)
    }
}

/// The page a leaf after all of `ls` links to: the first of `ls`, or `a` when it is empty.
pub open spec fn next_of(ls: Seq<u64>, a: Option<u64>) -> Option<u64> {
    if ls.len() > 0 {
        Some(ls[0])
    } else {
        a
    }
}

/// Each leaf of `ls` links to the one after it, and the last one links to `a`.
pub open spec fn chain(ls: Seq<u64>, nodes: Map<u64, NodeView>, a: Option<u64>) -> bool {
    forall|i: int|
        0 <= i < ls.len() ==> (#[trigger] nodes[ls[i]]).next_leaf == if i + 1 < ls.len() {
            Some(ls[i + 1])
        } else {
            a
        }
}

/// The records of a leaf, in order.
pub open spec fn leaf_entries(n: NodeView) -> Seq<(KeyView, Seq<u8>)> {
    Seq::new(n.keys.len(), |i: int| (n.keys[i], n.values[i]))
}

/// The records of the leaves `ls`, leaf after leaf.
pub open spec fn entries(ls: Seq<u64>, nodes: Map<u64, NodeView>) -> Seq<(KeyView, Seq<u8>)>
    decreases ls.len(),
{
    if ls.len() == 0 {
        Seq::empty()
    } else {
        entries(ls.drop_last(), nodes) + leaf_entries(nodes[ls.last()])
    }
}

/// Keys strictly ascending.
pub open spec fn keys_ascending(es: Seq<(KeyView, Seq<u8>)>) -> bool {
    forall|i: int, j: int| 0 <= i < j < es.len() ==> key_lt(#[trigger] es[i].0, #[trigger] es[j].0)
}

/// Every key inside `[lo, hi)`.
pub open spec fn keys_within(es: Seq<(KeyView, Seq<u8>)>, lo: Option<KeyView>, hi: Option<KeyView>) -> bool {
    forall|i: int| 0 <= i < es.len() ==> in_range(#[trigger] es[i].0, lo, hi)
}

pub proof fn lemma_leaves_all_concat(a: Seq<Shape>, b: Seq<Shape>, h: nat)
    ensures
        leaves_all(a + b, h) == leaves_all(a, h) + leaves_all(b, h),
    decreases b.len(),
{
    if b.len() == 0 {
        assert(a + b =~= a);
        assert(leaves_all(a, h) + leaves_all(b, h) =~= leaves_all(a, h));
    } else {
        assert((a + b).drop_last() =~= a + b.drop_last());
        assert((a + b).last() == b.last());
        lemma_leaves_all_concat(a, b.drop_last(), h);
        assert(leaves_all(a + b, h) =~= leaves_all(a, h) + leaves_all(b, h));
    }
}

pub proof fn lemma_leaves_all_single(c: Shape, h: nat)
    ensures
        leaves_all(seq![c], h) == leaves(c, h),
{
    let s = seq![c];
    assert(s.drop_last() =~= Seq::<Shape>::empty());
    assert(s.last() == c);
    assert(leaves_all(s.drop_last(), h) == Seq::<u64>::empty());
    assert(leaves_all(s, h) == leaves_all(s.drop_last(), h) + leaves(c, h));
    assert(leaves_all(s, h) =~= leaves(c, h));
}

/// The leaves of children `cs`, cut around child `i`.
pub proof fn lemma_leaves_all_split(cs: Seq<Shape>, i: int, h: nat)
    requires
        0 <= i < cs.len(),
    ensures
        leaves_all(cs, h) == leaves_all(cs.subrange(0, i), h) + leaves(cs[i], h) + leaves_all(
            cs.subrange(i + 1, cs.len() as int),
            h,
        ),
{
    let pre = cs.subrange(0, i);
    let post = cs.subrange(i + 1, cs.len() as int);
    assert(cs =~= pre + seq![cs[i]] + post);
    lemma_leaves_all_concat(pre + seq![cs[i]], post, h);
    lemma_leaves_all_concat(pre, seq![cs[i]], h);
    lemma_leaves_all_single(cs[i], h);
}

pub proof fn lemma_entries_concat(x: Seq<u64>, y: Seq<u64>, n: Map<u64, NodeView>)
    ensures
        entries(x + y, n) == entries(x, n) + entries(y, n),
    decreases y.len(),
{
    if y.len() == 0 {
        assert(x + y =~= x);
        assert(entries(x, n) + entries(y, n) =~= entries(x, n));
    } else {
        assert((x + y).drop_last() =~= x + y.drop_last());
        assert((x + y).last() == y.last());
        lemma_entries_concat(x, y.drop_last(), n);
        assert(entries(x + y, n) =~= entries(x, n) + entries(y, n));
    }
}

pub proof fn lemma_entries_single(id: u64, n: Map<u64, NodeView>)
    ensures
        entries(seq![id], n) == leaf_entries(n[id]),
{
    let s = seq![id];
    assert(s.drop_last() =~= Seq::<u64>::empty());
    assert(s.last() == id);
    assert(entries(s.drop_last(), n) == Seq::<(KeyView, Seq<u8>)>::empty());
    assert(entries(s, n) == entries(s.drop_last(), n) + leaf_entries(n[id]));
    assert(entries(s, n) =~= leaf_entries(n[id]));
}

/// A chain over `x + y` is a chain over `x` into the first of `y`, then a chain over `y`.
pub proof fn lemma_chain_concat(x: Seq<u64>, y: Seq<u64>, n: Map<u64, NodeView>, a: Option<u64>)
    ensures
        chain(x + y, n, a) == (chain(x, n, next_of(y, a)) && chain(y, n, a)),
{
    if chain(x + y, n, a) {
        lemma_chain_split(x, y, n, a);
    }
    if chain(x, n, next_of(y, a)) && chain(y, n, a) {
        lemma_chain_join(x, y, n, a);
    }
}

proof fn lemma_chain_split(x: Seq<u64>, y: Seq<u64>, n: Map<u64, NodeView>, a: Option<u64>)
    requires
        chain(x + y, n, a),
    ensures
        chain(x, n, next_of(y, a)),
        chain(y, n, a),
{
    let z = x + y;
    assert forall|i: int| 0 <= i < x.len() implies (#[trigger] n[x[i]]).next_leaf == if i + 1 < x.len() {
        Some(x[i + 1])
    } else {
        next_of(y, a)
    } by {
        assert(z[i] == x[i]);
        if i + 1 < x.len() {
            assert(z[i + 1] == x[i + 1]);
        } else if y.len() > 0 {
            assert(z[i + 1] == y[0]);
        }
    }
    assert forall|i: int| 0 <= i < y.len() implies (#[trigger] n[y[i]]).next_leaf == if i + 1 < y.len() {
        Some(y[i + 1])
    } else {
        a
    } by {
        assert(z[x.len() + i] == y[i]);
        if i + 1 < y.len() {
            assert(z[x.len() + i + 1] == y[i + 1]);
        }
    }
}

#[verifier::spinoff_prover]
proof fn lemma_chain_join(x: Seq<u64>, y: Seq<u64>, n: Map<u64, NodeView>, a: Option<u64>)
    requires
        chain(x, n, next_of(y, a)),
        chain(y, n, a),
    ensures
        chain(x + y, n, a),
{
    let z = x + y;
    assert forall|i: int| 0 <= i < z.len() implies (#[trigger] n[z[i]]).next_leaf == if i + 1 < z.len() {
        Some(z[i + 1])
    } else {
        a
    } by {
        if i < x.len() {
            assert(z[i] == x[i]);
            let e = n[x[i]].next_leaf;
            assert(e == if i + 1 < x.len() { Some(x[i + 1]) } else { next_of(y, a) });
            if i + 1 < x.len() {
                assert(z[i + 1] == x[i + 1]);
            } else if y.len() > 0 {
                assert(z[i + 1] == y[0]);
            }
        } else {
            let k = i - x.len();
            assert(z[i] == y[k]);
            let e = n[y[k]].next_leaf;
            assert(e == if k + 1 < y.len() { Some(y[k + 1]) } else { a });
            if i + 1 < z.len() {
                assert(z[i + 1] == y[k + 1]);
            }
        }
    }
}

/// A chain reads only the links of its own leaves.
pub proof fn lemma_chain_frame(ls: Seq<u64>, n0: Map<u64, NodeView>, n1: Map<u64, NodeView>, a: Option<u64>)
    requires
        forall|i: int| 0 <= i < ls.len() ==> n1[#[trigger] ls[i]].next_leaf == n0[ls[i]].next_leaf,
    ensures
        chain(ls, n0, a) == chain(ls, n1, a),
{
}

/// The leaves of a subtree are pages of it.
pub proof fn lemma_leaves_ids(t: Shape, h: nat)
    ensures
        forall|i: int| 0 <= i < leaves(t, h).len() ==> has_id(t, #[trigger] leaves(t, h)[i], h),
    decreases h, 0nat,
{
    match t {
        Shape::Leaf(id) => {},
        Shape::Inner(id, cs) => {
            if h > 0 {
                assert(t->1 == cs);
                let hc = (h - 1) as nat;
                lemma_leaves_all_ids(cs, hc);
                assert(leaves(t, h) == leaves_all(cs, hc));
                assert forall|i: int| 0 <= i < leaves(t, h).len() implies has_id(t, #[trigger] leaves(t, h)[i], h) by {
                    let x = leaves_all(cs, hc)[i];
                    let j = choose|j: int| 0 <= j < cs.len() && has_id(cs[j], x, hc);
                    lemma_child_ids(id, cs, j, x, h);
                }
            }
        },
    }
}

pub proof fn lemma_leaves_all_ids(cs: Seq<Shape>, h: nat)
    ensures
        forall|i: int|
            0 <= i < leaves_all(cs, h).len() ==> exists|j: int|
                0 <= j < cs.len() && has_id(cs[j], #[trigger] leaves_all(cs, h)[i], h),
    decreases h, cs.len() + 1,
{
    if cs.len() > 0 {
        let pre = cs.drop_last();
        lemma_leaves_all_ids(pre, h);
        lemma_leaves_ids(cs.last(), h);
        let la = leaves_all(cs, h);
        let lp = leaves_all(pre, h);
        assert forall|i: int| 0 <= i < la.len() implies exists|j: int|
            0 <= j < cs.len() && has_id(cs[j], #[trigger] la[i], h) by {
            if i < lp.len() {
                assert(la[i] == lp[i]);
                let j = choose|j: int| 0 <= j < pre.len() && has_id(pre[j], lp[i], h);
                assert(cs[j] == pre[j]);
            } else {
                assert(la[i] == leaves(cs.last(), h)[i - lp.len()]);
                assert(has_id(cs[cs.len() - 1], la[i], h));
            }
        }
    }
}

/// What reading the leaves of a well-formed subtree left to right gives:
/// its first leaf is the leftmost one, and its records ascend by key, lie
/// in `[lo, hi)`, and are exactly what lookup finds.
pub open spec fn entries_ok(t: Shape, nodes: Map<u64, NodeView>, lo: Option<KeyView>, hi: Option<KeyView>, h: nat) -> bool {
    let ls = leaves(t, h);
    let es = entries(ls, nodes);
    &&& ls.len() > 0
    &&& ls[0] == leftmost(t, h)
    &&& keys_ascending(es)
    &&& keys_within(es, lo, hi)
    &&& forall|i: int| 0 <= i < es.len() ==> lookup(t, nodes, (#[trigger] es[i]).0, h) == Some(es[i].1)
    &&& forall|k: KeyView|
        in_range(k, lo, hi) && #[trigger] lookup(t, nodes, k, h) is Some ==> exists|i: int|
            0 <= i < es.len() && (#[trigger] es[i]).0 == k
}

/// A key inside the range of child `j` routes to child `j`.
pub proof fn lemma_route_child_range(keys: Seq<KeyView>, lo: Option<KeyView>, hi: Option<KeyView>, j: int, k: KeyView)
    requires
        crate::shape::sorted_le(keys),
        0 <= j <= keys.len(),
        in_range(k, child_lo(keys, lo, j), child_hi(keys, hi, j)),
    ensures
        route(keys, k) == j,
{
    lemma_key_order();
    assert forall|i: int| 0 <= i < j implies !key_lt(k, #[trigger] keys[i]) by {
        assert(key_le(keys[i], keys[j - 1]));
    }
    crate::shape::lemma_route_unique(keys, k, j);
}

pub proof fn lemma_leaf_entries(id: u64, nodes: Map<u64, NodeView>, lo: Option<KeyView>, hi: Option<KeyView>)
    requires
        wf_shape(Shape::Leaf(id), nodes, lo, hi, 0),
    ensures
        entries_ok(Shape::Leaf(id), nodes, lo, hi, 0),
{
    let t = Shape::Leaf(id);
    let n = nodes[id];
    lemma_entries_single(id, nodes);
    let es = entries(leaves(t, 0), nodes);
    assert(es == leaf_entries(n));
    assert forall|i: int| 0 <= i < es.len() implies lookup(t, nodes, (#[trigger] es[i]).0, 0) == Some(es[i].1) by {
        lemma_key_index(n.keys, i);
    }
    assert forall|k: KeyView| in_range(k, lo, hi) && #[trigger] lookup(t, nodes, k, 0) is Some implies exists|i: int|
        0 <= i < es.len() && (#[trigger] es[i]).0 == k by {
        let i = choose|i: int| 0 <= i < n.keys.len() && n.keys[i] == k;
        assert(es[i].0 == k);
    }
}

/// The records of the first `m` children of an internal node.
#[verifier::spinoff_prover]
#[verifier::rlimit(50)]
pub proof fn lemma_prefix_entries(
    id: u64,
    cs: Seq<Shape>,
    nodes: Map<u64, NodeView>,
    lo: Option<KeyView>,
    hi: Option<KeyView>,
    h: nat,
    m: int,
)
    requires
        wf_shape(Shape::Inner(id, cs), nodes, lo, hi, h),
        forall|i: int|
            0 <= i < cs.len() ==> entries_ok(
                #[trigger] cs[i],
                nodes,
                child_lo(nodes[id].keys, lo, i),
                child_hi(nodes[id].keys, hi, i),
                (h - 1) as nat,
            ),
        0 <= m <= cs.len(),
    ensures
        ({
            let keys = nodes[id].keys;
            let t = Shape::Inner(id, cs);
            let es = entries(leaves_all(cs.subrange(0, m), (h - 1) as nat), nodes);
            &&& keys_ascending(es)
            &&& m > 0 ==> keys_within(es, lo, child_hi(keys, hi, m - 1))
            &&& forall|i: int|
                0 <= i < es.len() ==> route(keys, (#[trigger] es[i]).0) < m && lookup(t, nodes, es[i].0, h) == Some(
                    es[i].1,
                )
            &&& forall|k: KeyView|
                in_range(k, lo, hi) && route(keys, k) < m && #[trigger] lookup(t, nodes, k, h) is Some ==> exists|i: int|
                    0 <= i < es.len() && (#[trigger] es[i]).0 == k
        }),
    decreases m,
{
    let keys = nodes[id].keys;
    let t = Shape::Inner(id, cs);
    let hc = (h - 1) as nat;
    let es = entries(leaves_all(cs.subrange(0, m), hc), nodes);
    lemma_key_order();
    if m == 0 {
        assert(cs.subrange(0, 0) =~= Seq::<Shape>::empty());
        assert(es =~= Seq::<(KeyView, Seq<u8>)>::empty());
        assert forall|k: KeyView| in_range(k, lo, hi) && route(keys, k) < m && #[trigger] lookup(t, nodes, k, h) is Some implies exists|i: int|
            0 <= i < es.len() && (#[trigger] es[i]).0 == k by {
            lemma_route(keys, k);
        }
    } else {
        lemma_prefix_entries(id, cs, nodes, lo, hi, h, m - 1);
        let j = m - 1;
        let c = cs[j];
        let clo = child_lo(keys, lo, j);
        let chi = child_hi(keys, hi, j);
        let pre = cs.subrange(0, j);
        assert(cs.subrange(0, m).drop_last() =~= pre);
        assert(cs.subrange(0, m).last() == c);
        let ep = entries(leaves_all(pre, hc), nodes);
        let ec = entries(leaves(c, hc), nodes);
        lemma_entries_concat(leaves_all(pre, hc), leaves(c, hc), nodes);
        assert(es =~= ep + ec);
        assert(entries_ok(c, nodes, clo, chi, hc));
        assert(wf_shape(c, nodes, clo, chi, hc));
        assert forall|a: int, b: int| 0 <= a < b < es.len() implies key_lt(#[trigger] es[a].0, #[trigger] es[b].0) by {
            if b < ep.len() {
                assert(es[a] == ep[a] && es[b] == ep[b]);
            } else if a >= ep.len() {
                assert(es[a] == ec[a - ep.len()] && es[b] == ec[b - ep.len()]);
            } else {
                assert(es[a] == ep[a] && es[b] == ec[b - ep.len()]);
                assert(in_range(ep[a].0, lo, child_hi(keys, hi, j - 1)));
                assert(in_range(ec[b - ep.len()].0, clo, chi));
            }
        }
        assert forall|i: int| 0 <= i < es.len() implies in_range(#[trigger] es[i].0, lo, chi) by {
            if i < ep.len() {
                assert(es[i] == ep[i]);
                assert(in_range(ep[i].0, lo, child_hi(keys, hi, j - 1)));
                if j < keys.len() {
                    assert(key_le(keys[j - 1], keys[j]));
                }
            } else {
                assert(es[i] == ec[i - ep.len()]);
                assert(in_range(ec[i - ep.len()].0, clo, chi));
                if j > 0 {
                    assert(ge_lo(keys[j - 1], lo));
                }
            }
        }
        assert forall|i: int| 0 <= i < es.len() implies route(keys, (#[trigger] es[i]).0) < m && lookup(
            t,
            nodes,
            es[i].0,
            h,
        ) == Some(es[i].1) by {
            if i < ep.len() {
                assert(es[i] == ep[i]);
            } else {
                let e = ec[i - ep.len()];
                assert(es[i] == e);
                assert(in_range(e.0, clo, chi));
                lemma_route_child_range(keys, lo, hi, j, e.0);
                assert(lookup(c, nodes, e.0, hc) == Some(e.1));
            }
        }
        assert forall|k: KeyView| in_range(k, lo, hi) && route(keys, k) < m && #[trigger] lookup(t, nodes, k, h) is Some implies exists|i: int|
            0 <= i < es.len() && (#[trigger] es[i]).0 == k by {
            if route(keys, k) < j {
                let i = choose|i: int| 0 <= i < ep.len() && (#[trigger] ep[i]).0 == k;
                assert(es[i] == ep[i]);
            } else {
                lemma_route_in_child(keys, k, lo, hi);
                assert(lookup(c, nodes, k, hc) is Some);
                let i = choose|i: int| 0 <= i < ec.len() && (#[trigger] ec[i]).0 == k;
                assert(es[ep.len() + i] == ec[i]);
            }
        }
    }
}

/// Reading the leaves of a well-formed subtree left to right.
#[verifier::spinoff_prover]
pub proof fn lemma_tree_entries(t: Shape, nodes: Map<u64, NodeView>, lo: Option<KeyView>, hi: Option<KeyView>, h: nat)
    requires
        wf_shape(t, nodes, lo, hi, h),
    ensures
        entries_ok(t, nodes, lo, hi, h),
    decreases h,
{
    match t {
        Shape::Leaf(id) => {
            lemma_leaf_entries(id, nodes, lo, hi);
        },
        Shape::Inner(id, cs) => {
            assert(t->1 == cs);
            let keys = nodes[id].keys;
            let hc = (h - 1) as nat;
            assert forall|i: int| 0 <= i < cs.len() implies entries_ok(
                #[trigger] cs[i],
                nodes,
                child_lo(keys, lo, i),
                child_hi(keys, hi, i),
                hc,
            ) by {
                lemma_tree_entries(cs[i], nodes, child_lo(keys, lo, i), child_hi(keys, hi, i), hc);
            }
            lemma_prefix_entries(id, cs, nodes, lo, hi, h, cs.len() as int);
            assert(cs.subrange(0, cs.len() as int) =~= cs);
            let ls = leaves(t, h);
            let es = entries(ls, nodes);
            assert(ls == leaves_all(cs, hc));
            assert(child_hi(keys, hi, cs.len() - 1) == hi);
            assert forall|k: KeyView| in_range(k, lo, hi) && #[trigger] lookup(t, nodes, k, h) is Some implies exists|i: int|
                0 <= i < es.len() && (#[trigger] es[i]).0 == k by {
                lemma_route(keys, k);
            }
            lemma_leaves_all_split(cs, 0, hc);
            assert(cs.subrange(0, 0) =~= Seq::<Shape>::empty());
            assert(leaves_all(cs.subrange(0, 0), hc) == Seq::<u64>::empty());
            assert(ls =~= leaves(cs[0], hc) + leaves_all(cs.subrange(1, cs.len() as int), hc));
            assert(ls[0] == leaves(cs[0], hc)[0]);
        },
    }
}

/// What an operation on subtree `t` owes the leaf chain: the rebuilt leaves
/// `ls` start with the same page, and wherever the old leaves were chained
/// into some page, the new ones are chained into it too.
pub open spec fn chain_kept(t: Shape, n0: Map<u64, NodeView>, h: nat, ls: Seq<u64>, n1: Map<u64, NodeView>) -> bool {
    &&& ls.len() > 0
    &&& ls[0] == leaves(t, h)[0]
    &&& forall|a: Option<u64>| #[trigger] chain(leaves(t, h), n0, a) ==> chain(ls, n1, a)
}

pub proof fn lemma_leaves_pair(a: Shape, b: Shape, h: nat)
    ensures
        leaves_all(seq![a, b], h) == leaves(a, h) + leaves(b, h),
{
    lemma_leaves_all_concat(seq![a], seq![b], h);
    assert(seq![a] + seq![b] =~= seq![a, b]);
    lemma_leaves_all_single(a, h);
    lemma_leaves_all_single(b, h);
}

/// Children `j .. j + w` of a well-formed node replaced by `mid`: when the
/// block's chain carries over to `mid` and no other leaf link changed, the
/// chain of all the node's leaves carries over.
#[verifier::spinoff_prover]
#[verifier::rlimit(50)]
pub proof fn lemma_chain_replace(
    pid: u64,
    cs: Seq<Shape>,
    n0: Map<u64, NodeView>,
    n1: Map<u64, NodeView>,
    lo: Option<KeyView>,
    hi: Option<KeyView>,
    hp: nat,
    j: int,
    w: int,
    mid: Seq<Shape>,
)
    requires
        wf_shape(Shape::Inner(pid, cs), n0, lo, hi, hp),
        1 <= w <= 2,
        0 <= j,
        j + w <= cs.len(),
        forall|x: u64|
            #[trigger] n0.contains_key(x) && x != pid && !has_id(cs[j], x, (hp - 1) as nat) && !has_id(
                cs[j + w - 1],
                x,
                (hp - 1) as nat,
            ) ==> n1[x].next_leaf == n0[x].next_leaf,
        leaves_all(mid, (hp - 1) as nat).len() > 0,
        leaves_all(mid, (hp - 1) as nat)[0] == leaves(cs[j], (hp - 1) as nat)[0],
        forall|a: Option<u64>|
            #[trigger] chain(leaves_all(cs.subrange(j, j + w), (hp - 1) as nat), n0, a) ==> chain(
                leaves_all(mid, (hp - 1) as nat),
                n1,
                a,
            ),
    ensures
        chain_kept(
            Shape::Inner(pid, cs),
            n0,
            hp,
            leaves_all(cs.subrange(0, j) + mid + cs.subrange(j + w, cs.len() as int), (hp - 1) as nat),
            n1,
        ),
{
    let h = (hp - 1) as nat;
    let t = Shape::Inner(pid, cs);
    assert(t->1 == cs);
    let keys = n0[pid].keys;
    let pre = cs.subrange(0, j);
    let blk = cs.subrange(j, j + w);
    let post = cs.subrange(j + w, cs.len() as int);
    let cs2 = pre + mid + post;
    assert(cs =~= pre + blk + post);
    lemma_leaves_all_concat(pre + blk, post, h);
    lemma_leaves_all_concat(pre, blk, h);
    lemma_leaves_all_concat(pre + mid, post, h);
    lemma_leaves_all_concat(pre, mid, h);
    let lp = leaves_all(pre, h);
    let lb = leaves_all(blk, h);
    let lm = leaves_all(mid, h);
    let lq = leaves_all(post, h);
    assert(leaves(t, hp) == lp + lb + lq);
    assert(leaves_all(cs2, h) == lp + lm + lq);
    crate::insert_proofs::lemma_ids_known(t, n0, lo, hi, hp);
    lemma_tree_entries(cs[j], n0, child_lo(keys, lo, j), child_hi(keys, hi, j), h);
    lemma_leaves_all_split(blk, 0, h);
    assert(blk.subrange(0, 0) =~= Seq::<Shape>::empty());
    assert(lb =~= leaves(cs[j], h) + leaves_all(blk.subrange(1, blk.len() as int), h));
    assert(lb.len() > 0 && lb[0] == lm[0]);
    // the leaves outside the block keep their links
    lemma_leaves_all_ids(pre, h);
    lemma_leaves_all_ids(post, h);
    assert forall|i: int| 0 <= i < lp.len() implies n1[#[trigger] lp[i]].next_leaf == n0[lp[i]].next_leaf by {
        let x = lp[i];
        let k = choose|k: int| 0 <= k < pre.len() && has_id(pre[k], x, h);
        assert(pre[k] == cs[k]);
        lemma_child_ids(pid, cs, k, x, hp);
        assert(!has_id(cs[j], x, h));
        assert(!has_id(cs[j + w - 1], x, h));
        assert(!has_id(cs[k], pid, h));
    }
    assert forall|i: int| 0 <= i < lq.len() implies n1[#[trigger] lq[i]].next_leaf == n0[lq[i]].next_leaf by {
        let x = lq[i];
        let k = choose|k: int| 0 <= k < post.len() && has_id(post[k], x, h);
        assert(post[k] == cs[j + w + k]);
        lemma_child_ids(pid, cs, j + w + k, x, hp);
        assert(!has_id(cs[j], x, h));
        assert(!has_id(cs[j + w - 1], x, h));
        assert(!has_id(cs[j + w + k], pid, h));
    }
    assert forall|a: Option<u64>| #[trigger] chain(leaves(t, hp), n0, a) implies chain(leaves_all(cs2, h), n1, a) by {
        lemma_chain_concat(lp + lb, lq, n0, a);
        lemma_chain_concat(lp, lb, n0, next_of(lq, a));
        lemma_chain_frame(lq, n0, n1, a);
        lemma_chain_frame(lp, n0, n1, next_of(lb, next_of(lq, a)));
        assert(next_of(lb, next_of(lq, a)) == next_of(lm, next_of(lq, a)));
        lemma_chain_concat(lp, lm, n1, next_of(lq, a));
        lemma_chain_concat(lp + lm, lq, n1, a);
    }
    if lp.len() > 0 {
        assert((lp + lb + lq)[0] == lp[0]);
        assert((lp + lm + lq)[0] == lp[0]);
    } else {
        assert((lp + lb + lq)[0] == lb[0]);
        assert((lp + lm + lq)[0] == lm[0]);
    }
}

/// The leaves of a well-formed subtree are pages the map holds, and below an
/// internal root none of them is the root.
pub proof fn lemma_leaves_known(t: Shape, nodes: Map<u64, NodeView>, lo: Option<KeyView>, hi: Option<KeyView>, h: nat)
    requires
        wf_shape(t, nodes, lo, hi, h),
    ensures
        forall|i: int| 0 <= i < leaves(t, h).len() ==> nodes.contains_key(#[trigger] leaves(t, h)[i]),
        h > 0 ==> forall|i: int| 0 <= i < leaves(t, h).len() ==> #[trigger] leaves(t, h)[i] != t.id(),
{
    lemma_leaves_ids(t, h);
    crate::insert_proofs::lemma_ids_known(t, nodes, lo, hi, h);
    if h > 0 {
        match t {
            Shape::Leaf(id) => {},
            Shape::Inner(id, cs) => {
                assert(t->1 == cs);
                let hc = (h - 1) as nat;
                lemma_leaves_all_ids(cs, hc);
                assert(leaves(t, h) == leaves_all(cs, hc));
                assert forall|i: int| 0 <= i < leaves(t, h).len() implies #[trigger] leaves(t, h)[i] != t.id() by {
                    let x = leaves_all(cs, hc)[i];
                    let k = choose|k: int| 0 <= k < cs.len() && has_id(cs[k], x, hc);
                    assert(!has_id(cs[k], id, hc));
                }
            },
        }
    }
}

/// `chain_kept` reads only the links of the new leaves.
pub proof fn lemma_chain_kept_frame(
    t: Shape,
    n0: Map<u64, NodeView>,
    h: nat,
    ls: Seq<u64>,
    n1: Map<u64, NodeView>,
    n2: Map<u64, NodeView>,
)
    requires
        chain_kept(t, n0, h, ls, n1),
        forall|i: int| 0 <= i < ls.len() ==> n2[#[trigger] ls[i]].next_leaf == n1[ls[i]].next_leaf,
    ensures
        chain_kept(t, n0, h, ls, n2),
{
    assert forall|a: Option<u64>| #[trigger] chain(leaves(t, h), n0, a) implies chain(ls, n2, a) by {
        lemma_chain_frame(ls, n1, n2, a);
    }
}

/// Child `pos` of a node rebuilt as `c2`.
pub proof fn lemma_chain_child(
    pid: u64,
    cs: Seq<Shape>,
    n0: Map<u64, NodeView>,
    n1: Map<u64, NodeView>,
    lo: Option<KeyView>,
    hi: Option<KeyView>,
    hp: nat,
    pos: int,
    c2: Shape,
)
    requires
        wf_shape(Shape::Inner(pid, cs), n0, lo, hi, hp),
        0 <= pos < cs.len(),
        forall|x: u64|
            #[trigger] n0.contains_key(x) && x != pid && !has_id(cs[pos], x, (hp - 1) as nat) ==> n1[x].next_leaf
                == n0[x].next_leaf,
        chain_kept(cs[pos], n0, (hp - 1) as nat, leaves(c2, (hp - 1) as nat), n1),
    ensures
        chain_kept(Shape::Inner(pid, cs), n0, hp, leaves(Shape::Inner(pid, cs.update(pos, c2)), hp), n1),
{
    let h = (hp - 1) as nat;
    lemma_leaves_all_single(c2, h);
    lemma_leaves_all_single(cs[pos], h);
    assert(cs.subrange(pos, pos + 1) =~= seq![cs[pos]]);
    lemma_chain_replace(pid, cs, n0, n1, lo, hi, hp, pos, 1, seq![c2]);
    assert(cs.subrange(0, pos) + seq![c2] + cs.subrange(pos + 1, cs.len() as int) =~= cs.update(pos, c2));
}

/// Child `pos` of a node rebuilt as `c2` and `cr` next to it.
pub proof fn lemma_chain_child_split(
    pid: u64,
    cs: Seq<Shape>,
    n0: Map<u64, NodeView>,
    n1: Map<u64, NodeView>,
    lo: Option<KeyView>,
    hi: Option<KeyView>,
    hp: nat,
    pos: int,
    c2: Shape,
    cr: Shape,
)
    requires
        wf_shape(Shape::Inner(pid, cs), n0, lo, hi, hp),
        0 <= pos < cs.len(),
        forall|x: u64|
            #[trigger] n0.contains_key(x) && x != pid && !has_id(cs[pos], x, (hp - 1) as nat) ==> n1[x].next_leaf
                == n0[x].next_leaf,
        chain_kept(cs[pos], n0, (hp - 1) as nat, leaves(c2, (hp - 1) as nat) + leaves(cr, (hp - 1) as nat), n1),
    ensures
        chain_kept(
            Shape::Inner(pid, cs),
            n0,
            hp,
            leaves(Shape::Inner(pid, cs.update(pos, c2).insert(pos + 1, cr)), hp),
            n1,
        ),
{
    let h = (hp - 1) as nat;
    lemma_leaves_pair(c2, cr, h);
    lemma_leaves_all_single(cs[pos], h);
    assert(cs.subrange(pos, pos + 1) =~= seq![cs[pos]]);
    lemma_chain_replace(pid, cs, n0, n1, lo, hi, hp, pos, 1, seq![c2, cr]);
    assert(cs.subrange(0, pos) + seq![c2, cr] + cs.subrange(pos + 1, cs.len() as int) =~= cs.update(pos, c2).insert(
        pos + 1,
        cr,
    ));
}

pub proof fn lemma_chain_kept_trans(
    t: Shape,
    n0: Map<u64, NodeView>,
    h: nat,
    t1: Shape,
    n1: Map<u64, NodeView>,
    ls: Seq<u64>,
    n2: Map<u64, NodeView>,
)
    requires
        chain_kept(t, n0, h, leaves(t1, h), n1),
        chain_kept(t1, n1, h, ls, n2),
    ensures
        chain_kept(t, n0, h, ls, n2),
{
    assert forall|a: Option<u64>| #[trigger] chain(leaves(t, h), n0, a) implies chain(ls, n2, a) by {
        assert(chain(leaves(t1, h), n1, a));
    }
}

/// No leaf link changed and the leaves are the same.
pub proof fn lemma_chain_same(t: Shape, n0: Map<u64, NodeView>, n1: Map<u64, NodeView>, lo: Option<KeyView>, hi: Option<KeyView>, h: nat)
    requires
        wf_shape(t, n0, lo, hi, h),
        forall|x: u64| #[trigger] n0.contains_key(x) ==> n1[x].next_leaf == n0[x].next_leaf,
    ensures
        chain_kept(t, n0, h, leaves(t, h), n1),
{
    lemma_tree_entries(t, n0, lo, hi, h);
    lemma_leaves_known(t, n0, lo, hi, h);
    assert forall|a: Option<u64>| #[trigger] chain(leaves(t, h), n0, a) implies chain(leaves(t, h), n1, a) by {
        lemma_chain_frame(leaves(t, h), n0, n1, a);
    }
}

/// Children `j` and `j + 1` replaced by `mid` with the same leaves, no leaf link changed.
pub proof fn lemma_chain_pair_same(
    pid: u64,
    cs: Seq<Shape>,
    n0: Map<u64, NodeView>,
    n1: Map<u64, NodeView>,
    lo: Option<KeyView>,
    hi: Option<KeyView>,
    hp: nat,
    j: int,
    mid: Seq<Shape>,
)
    requires
        wf_shape(Shape::Inner(pid, cs), n0, lo, hi, hp),
        0 <= j,
        j + 1 < cs.len(),
        leaves_all(mid, (hp - 1) as nat) == leaves(cs[j], (hp - 1) as nat) + leaves(cs[j + 1], (hp - 1) as nat),
        forall|x: u64| #[trigger] n0.contains_key(x) ==> n1[x].next_leaf == n0[x].next_leaf,
    ensures
        chain_kept(
            Shape::Inner(pid, cs),
            n0,
            hp,
            leaves_all(cs.subrange(0, j) + mid + cs.subrange(j + 2, cs.len() as int), (hp - 1) as nat),
            n1,
        ),
{
    let h = (hp - 1) as nat;
    let t = Shape::Inner(pid, cs);
    assert(t->1 == cs);
    let keys = n0[pid].keys;
    lemma_leaves_pair(cs[j], cs[j + 1], h);
    assert(cs.subrange(j, j + 2) =~= seq![cs[j], cs[j + 1]]);
    lemma_tree_entries(cs[j], n0, child_lo(keys, lo, j), child_hi(keys, hi, j), h);
    lemma_leaves_known(cs[j], n0, child_lo(keys, lo, j), child_hi(keys, hi, j), h);
    lemma_leaves_known(cs[j + 1], n0, child_lo(keys, lo, j + 1), child_hi(keys, hi, j + 1), h);
    let lm = leaves_all(mid, h);
    let l0 = leaves(cs[j], h);
    assert(lm[0] == l0[0]);
    assert forall|i: int| 0 <= i < lm.len() implies n1[#[trigger] lm[i]].next_leaf == n0[lm[i]].next_leaf by {
        if i < l0.len() {
            assert(lm[i] == l0[i]);
        } else {
            assert(lm[i] == leaves(cs[j + 1], h)[i - l0.len()]);
        }
    }
    assert forall|a: Option<u64>| #[trigger] chain(leaves_all(cs.subrange(j, j + 2), h), n0, a) implies chain(lm, n1, a) by {
        lemma_chain_frame(lm, n0, n1, a);
    }
    lemma_chain_replace(pid, cs, n0, n1, lo, hi, hp, j, 2, mid);
}

/// Two neighbouring leaves joined into the left one, which takes over the
/// link of the right one.
#[verifier::spinoff_prover]
pub proof fn lemma_chain_merge_leaves(
    pid: u64,
    cs: Seq<Shape>,
    n0: Map<u64, NodeView>,
    n1: Map<u64, NodeView>,
    lo: Option<KeyView>,
    hi: Option<KeyView>,
    j: int,
)
    requires
        wf_shape(Shape::Inner(pid, cs), n0, lo, hi, 1),
        0 <= j,
        j + 1 < cs.len(),
        n1[cs[j].id()].next_leaf == n0[cs[j + 1].id()].next_leaf,
        forall|x: u64| #[trigger] n0.contains_key(x) && x != cs[j].id() ==> n1[x].next_leaf == n0[x].next_leaf,
    ensures
        chain_kept(
            Shape::Inner(pid, cs),
            n0,
            1,
            leaves_all(cs.subrange(0, j) + seq![Shape::Leaf(cs[j].id())] + cs.subrange(j + 2, cs.len() as int), 0),
            n1,
        ),
{
    let t = Shape::Inner(pid, cs);
    assert(t->1 == cs);
    let keys = n0[pid].keys;
    let lid = cs[j].id();
    let rid = cs[j + 1].id();
    assert(wf_shape(cs[j], n0, child_lo(keys, lo, j), child_hi(keys, hi, j), 0));
    assert(wf_shape(cs[j + 1], n0, child_lo(keys, lo, j + 1), child_hi(keys, hi, j + 1), 0));
    assert(cs[j] == Shape::Leaf(lid));
    assert(cs[j + 1] == Shape::Leaf(rid));
    lemma_leaves_pair(cs[j], cs[j + 1], 0);
    assert(cs.subrange(j, j + 2) =~= seq![cs[j], cs[j + 1]]);
    lemma_leaves_all_single(Shape::Leaf(lid), 0);
    let mid = seq![Shape::Leaf(lid)];
    assert(leaves_all(mid, 0) == seq![lid]);
    assert(leaves_all(cs.subrange(j, j + 2), 0) =~= seq![lid, rid]);
    assert forall|a: Option<u64>| #[trigger] chain(leaves_all(cs.subrange(j, j + 2), 0), n0, a) implies chain(
        leaves_all(mid, 0),
        n1,
        a,
    ) by {
        let ls = seq![lid, rid];
        assert(n0[ls[1]].next_leaf == a);
        assert(seq![lid][0] == lid);
    }
    lemma_chain_replace(pid, cs, n0, n1, lo, hi, 1, j, 2, mid);
}

/// The leaves of two internal siblings whose children are joined under one page.
pub proof fn lemma_leaves_join(lid: u64, a: Shape, b: Shape, h: nat)
    requires
        a is Inner,
        b is Inner,
        h > 0,
    ensures
        leaves(Shape::Inner(lid, a->1 + b->1), h) == leaves(a, h) + leaves(b, h),
{
    lemma_leaves_all_concat(a->1, b->1, (h - 1) as nat);
}

/// The leaves of a run of children cut into two internal nodes after child `mid`.
pub proof fn lemma_leaves_cut(lid: u64, rid: u64, ccs: Seq<Shape>, mid: int, h: nat)
    requires
        0 <= mid + 1 <= ccs.len(),
        h > 0,
    ensures
        leaves(Shape::Inner(lid, ccs.subrange(0, mid + 1)), h) + leaves(
            Shape::Inner(rid, ccs.subrange(mid + 1, ccs.len() as int)),
            h,
        ) == leaves_all(ccs, (h - 1) as nat),
{
    lemma_leaves_all_concat(ccs.subrange(0, mid + 1), ccs.subrange(mid + 1, ccs.len() as int), (h - 1) as nat);
    assert(ccs.subrange(0, mid + 1) + ccs.subrange(mid + 1, ccs.len() as int) =~= ccs);
}

/// Internal children `j` and `j + 1` joined and cut again after child `mid`
/// of the joined run, no leaf link changed.
#[verifier::spinoff_prover]
pub proof fn lemma_chain_rotated(
    pid: u64,
    cs: Seq<Shape>,
    n0: Map<u64, NodeView>,
    n1: Map<u64, NodeView>,
    lo: Option<KeyView>,
    hi: Option<KeyView>,
    h: nat,
    j: int,
    mid: int,
)
    requires
        wf_shape(Shape::Inner(pid, cs), n0, lo, hi, h),
        0 <= j,
        j + 1 < cs.len(),
        h > 1,
        0 <= mid + 1 <= (cs[j]->1 + cs[j + 1]->1).len(),
        forall|x: u64| #[trigger] n0.contains_key(x) ==> n1[x].next_leaf == n0[x].next_leaf,
    ensures
        ({
            let halves = split_shapes(cs[j].id(), cs[j + 1].id(), cs[j]->1 + cs[j + 1]->1, mid);
            chain_kept(
                Shape::Inner(pid, cs),
                n0,
                h,
                leaves(Shape::Inner(pid, cs.update(j, halves.0).update(j + 1, halves.1)), h),
                n1,
            )
        }),
{
    let hc = (h - 1) as nat;
    let t = Shape::Inner(pid, cs);
    assert(t->1 == cs);
    let keys = n0[pid].keys;
    crate::delete_proofs::lemma_leaf_iff_height(cs[j], n0, child_lo(keys, lo, j), child_hi(keys, hi, j), hc);
    crate::delete_proofs::lemma_leaf_iff_height(cs[j + 1], n0, child_lo(keys, lo, j + 1), child_hi(keys, hi, j + 1), hc);
    let mcs = cs[j]->1 + cs[j + 1]->1;
    let halves = split_shapes(cs[j].id(), cs[j + 1].id(), mcs, mid);
    let m2 = seq![halves.0, halves.1];
    lemma_leaves_pair(halves.0, halves.1, hc);
    lemma_leaves_cut(cs[j].id(), cs[j + 1].id(), mcs, mid, hc);
    lemma_leaves_join(cs[j].id(), cs[j], cs[j + 1], hc);
    lemma_chain_pair_same(pid, cs, n0, n1, lo, hi, h, j, m2);
    assert(cs.subrange(0, j) + m2 + cs.subrange(j + 2, cs.len() as int) =~= cs.update(j, halves.0).update(j + 1, halves.1));
}

/// Children `j` and `j + 1` merged into the page of child `j`.
pub proof fn lemma_chain_merged(
    pid: u64,
    cs: Seq<Shape>,
    n0: Map<u64, NodeView>,
    n1: Map<u64, NodeView>,
    lo: Option<KeyView>,
    hi: Option<KeyView>,
    h: nat,
    j: int,
)
    requires
        wf_shape(Shape::Inner(pid, cs), n0, lo, hi, h),
        0 <= j,
        j + 1 < cs.len(),
        h == 1 ==> n1[cs[j].id()].next_leaf == n0[cs[j + 1].id()].next_leaf,
        h > 1 ==> n1[cs[j].id()].next_leaf == n0[cs[j].id()].next_leaf,
        forall|x: u64| #[trigger] n0.contains_key(x) && x != cs[j].id() ==> n1[x].next_leaf == n0[x].next_leaf,
    ensures
        h == 1 ==> chain_kept(
            Shape::Inner(pid, cs),
            n0,
            h,
            leaves(Shape::Inner(pid, cs.update(j, Shape::Leaf(cs[j].id())).remove(j + 1)), h),
            n1,
        ),
        h > 1 ==> chain_kept(
            Shape::Inner(pid, cs),
            n0,
            h,
            leaves(Shape::Inner(pid, cs.update(j, Shape::Inner(cs[j].id(), cs[j]->1 + cs[j + 1]->1)).remove(j + 1)), h),
            n1,
        ),
{
    let hc = (h - 1) as nat;
    let t = Shape::Inner(pid, cs);
    assert(t->1 == cs);
    let keys = n0[pid].keys;
    crate::delete_proofs::lemma_leaf_iff_height(cs[j], n0, child_lo(keys, lo, j), child_hi(keys, hi, j), hc);
    crate::delete_proofs::lemma_leaf_iff_height(cs[j + 1], n0, child_lo(keys, lo, j + 1), child_hi(keys, hi, j + 1), hc);
    if h == 1 {
        lemma_chain_merge_leaves(pid, cs, n0, n1, lo, hi, j);
        let m1 = seq![Shape::Leaf(cs[j].id())];
        assert(cs.subrange(0, j) + m1 + cs.subrange(j + 2, cs.len() as int) =~= cs.update(j, Shape::Leaf(cs[j].id())).remove(j + 1));
    } else {
        let mt = Shape::Inner(cs[j].id(), cs[j]->1 + cs[j + 1]->1);
        let m1 = seq![mt];
        lemma_leaves_all_single(mt, hc);
        lemma_leaves_join(cs[j].id(), cs[j], cs[j + 1], hc);
        assert forall|x: u64| #[trigger] n0.contains_key(x) implies n1[x].next_leaf == n0[x].next_leaf by {}
        lemma_chain_pair_same(pid, cs, n0, n1, lo, hi, h, j, m1);
        assert(cs.subrange(0, j) + m1 + cs.subrange(j + 2, cs.len() as int) =~= cs.update(j, mt).remove(j + 1));
    }
}

/// A leaf split in two: the left keeps its page and links to the new right
/// one, which takes over the old link.
pub proof fn lemma_chain_leaf_split(l: u64, r: u64, n0: Map<u64, NodeView>, n1: Map<u64, NodeView>)
    requires
        n1[l].next_leaf == Some(r),
        n1[r].next_leaf == n0[l].next_leaf,
    ensures
        chain_kept(Shape::Leaf(l), n0, 0, leaves(Shape::Leaf(l), 0) + leaves(Shape::Leaf(r), 0), n1),
{
    let ls = seq![l] + seq![r];
    assert(ls =~= seq![l, r]);
    assert forall|a: Option<u64>| #[trigger] chain(leaves(Shape::Leaf(l), 0), n0, a) implies chain(ls, n1, a) by {
        assert(seq![l][0] == l);
        assert(n0[seq![l][0]].next_leaf == a);
        assert(ls[0] == l && ls[1] == r);
    }
}

/// Every leaf of the subtree is a leaf node with one value per key.
pub open spec fn leafy(t: Shape, nodes: Map<u64, NodeView>, h: nat) -> bool {
    forall|i: int|
        0 <= i < leaves(t, h).len() ==> {
            let n = nodes[#[trigger] leaves(t, h)[i]];
            n.is_leaf && n.values.len() == n.keys.len()
        }
}

#[verifier::spinoff_prover]
proof fn lemma_leaves_all_leafy(cs: Seq<Shape>, nodes: Map<u64, NodeView>, h: nat)
    requires
        forall|i: int| 0 <= i < cs.len() ==> leafy(#[trigger] cs[i], nodes, h),
    ensures
        forall|i: int|
            0 <= i < leaves_all(cs, h).len() ==> {
                let n = nodes[#[trigger] leaves_all(cs, h)[i]];
                n.is_leaf && n.values.len() == n.keys.len()
            },
    decreases cs.len(),
{
    if cs.len() > 0 {
        let pre = cs.drop_last();
        assert forall|i: int| 0 <= i < pre.len() implies leafy(#[trigger] pre[i], nodes, h) by {
            assert(pre[i] == cs[i]);
        }
        lemma_leaves_all_leafy(pre, nodes, h);
        let lp = leaves_all(pre, h);
        let ll = leaves(cs.last(), h);
        assert(leafy(cs[cs.len() - 1], nodes, h));
        assert forall|i: int| 0 <= i < leaves_all(cs, h).len() implies {
            let n = nodes[#[trigger] leaves_all(cs, h)[i]];
            n.is_leaf && n.values.len() == n.keys.len()
        } by {
            if i < lp.len() {
                assert(leaves_all(cs, h)[i] == lp[i]);
            } else {
                assert(leaves_all(cs, h)[i] == ll[i - lp.len()]);
            }
        }
    }
}

pub proof fn lemma_leafy(t: Shape, nodes: Map<u64, NodeView>, lo: Option<KeyView>, hi: Option<KeyView>, h: nat)
    requires
        wf_shape(t, nodes, lo, hi, h),
    ensures
        leafy(t, nodes, h),
    decreases h,
{
    match t {
        Shape::Leaf(id) => {},
        Shape::Inner(id, cs) => {
            assert(t->1 == cs);
            let keys = nodes[id].keys;
            let hc = (h - 1) as nat;
            assert forall|i: int| 0 <= i < cs.len() implies leafy(#[trigger] cs[i], nodes, hc) by {
                lemma_leafy(cs[i], nodes, child_lo(keys, lo, i), child_hi(keys, hi, i), hc);
            }
            lemma_leaves_all_leafy(cs, nodes, hc);
            assert(leaves(t, h) == leaves_all(cs, hc));
        },
    }
}

/// The records of the leaves up to and including leaf `i`.
pub proof fn lemma_entries_prefix(ls: Seq<u64>, nodes: Map<u64, NodeView>, i: int)
    requires
        0 <= i < ls.len(),
    ensures
        entries(ls.subrange(0, i + 1), nodes) == entries(ls.subrange(0, i), nodes) + leaf_entries(nodes[ls[i]]),
        entries(ls, nodes) == entries(ls.subrange(0, i + 1), nodes) + entries(ls.subrange(i + 1, ls.len() as int), nodes),
{
    assert(ls.subrange(0, i + 1).drop_last() =~= ls.subrange(0, i));
    assert(ls.subrange(0, i + 1).last() == ls[i]);
    lemma_entries_concat(ls.subrange(0, i + 1), ls.subrange(i + 1, ls.len() as int), nodes);
    assert(ls.subrange(0, i + 1) + ls.subrange(i + 1, ls.len() as int) =~= ls);
}

/// The leaf that routing for `k` reaches, and its place among the leaves:
/// every record of the leaves before it has a key below `k`.
#[verifier::spinoff_prover]
pub proof fn lemma_leaf_for_index(t: Shape, nodes: Map<u64, NodeView>, lo: Option<KeyView>, hi: Option<KeyView>, h: nat, k: KeyView) -> (i: int)
    requires
        wf_shape(t, nodes, lo, hi, h),
        in_range(k, lo, hi),
    ensures
        0 <= i < leaves(t, h).len(),
        leaves(t, h)[i] == leaf_for(t, nodes, k, h),
        forall|q: int|
            0 <= q < entries(leaves(t, h).subrange(0, i), nodes).len() ==> key_lt(
                (#[trigger] entries(leaves(t, h).subrange(0, i), nodes)[q]).0,
                k,
            ),
    decreases h,
{
    match t {
        Shape::Leaf(id) => {
            assert(leaves(t, h).subrange(0, 0) =~= Seq::<u64>::empty());
            0
        },
        Shape::Inner(id, cs) => {
            assert(t->1 == cs);
            let keys = nodes[id].keys;
            let hc = (h - 1) as nat;
            let r = route(keys, k);
            lemma_route(keys, k);
            lemma_route_in_child(keys, k, lo, hi);
            let ic = lemma_leaf_for_index(cs[r], nodes, child_lo(keys, lo, r), child_hi(keys, hi, r), hc, k);
            assert forall|j: int| 0 <= j < cs.len() implies entries_ok(
                #[trigger] cs[j],
                nodes,
                child_lo(keys, lo, j),
                child_hi(keys, hi, j),
                hc,
            ) by {
                lemma_tree_entries(cs[j], nodes, child_lo(keys, lo, j), child_hi(keys, hi, j), hc);
            }
            lemma_prefix_entries(id, cs, nodes, lo, hi, h, r);
            lemma_leaves_all_split(cs, r, hc);
            let lp = leaves_all(cs.subrange(0, r), hc);
            let lc = leaves(cs[r], hc);
            let ls = leaves(t, h);
            assert(ls == leaves_all(cs, hc));
            let i = lp.len() + ic;
            assert(ls.subrange(0, i) =~= lp + lc.subrange(0, ic));
            assert(ls[i] == lc[ic]);
            lemma_entries_concat(lp, lc.subrange(0, ic), nodes);
            let ep = entries(lp, nodes);
            let ec = entries(lc.subrange(0, ic), nodes);
            lemma_key_order();
            assert forall|q: int| 0 <= q < entries(ls.subrange(0, i), nodes).len() implies key_lt(
                (#[trigger] entries(ls.subrange(0, i), nodes)[q]).0,
                k,
            ) by {
                let e = entries(ls.subrange(0, i), nodes)[q];
                if q < ep.len() {
                    assert(e == ep[q]);
                    assert(in_range(ep[q].0, lo, child_hi(keys, hi, r - 1)));
                    assert(!key_lt(k, keys[r - 1]));
                } else {
                    assert(e == ec[q - ep.len()]);
                }
            }
            i
        },
    }
}

} // verus!
