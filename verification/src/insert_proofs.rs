//! Facts about routing and about rebuilding a subtree after an insertion:
//! a key added to a leaf, a child replaced, a child split in two, a node split.
use vstd::prelude::*;
use crate::key::{KeyView, key_lt, key_le, lemma_key_order};
use crate::node::NodeView;
use crate::shape::{
    Shape, wf_shape, has_id, lookup, leaf_get, route, in_range, ge_lo, le_hi, child_lo, child_hi,
    leaf_ok, inner_ok, sorted_le, same_on, child_ids, lemma_route, lemma_route_unique,
    lemma_route_in_child, lemma_key_index, lemma_frame, lemma_child_ids, lemma_has_own_id,
};

verus! {

/// Every page the map knows of has an id below `a`.
pub open spec fn ids_below(nodes: Map<u64, NodeView>, a: u64) -> bool {
    forall|x: u64| #[trigger] nodes.contains_key(x) ==> x < a
}

/// Every page of `t2` is a page of `t` or was handed out in `[a0, a1)`.
pub open spec fn ids_within(t2: Shape, t: Shape, h: nat, a0: u64, a1: u64) -> bool {
    forall|x: u64| #[trigger] has_id(t2, x, h) ==> has_id(t, x, h) || (a0 <= x < a1)
}

/// What a subtree holds for `k` once `key` maps to `value`.
pub open spec fn updated(t: Shape, nodes: Map<u64, NodeView>, h: nat, key: KeyView, value: Seq<u8>, k: KeyView) -> Option<Seq<u8>> {
    if k == key {
        Some(value)
    } else {
        lookup(t, nodes, k, h)
    }
}

/// Every page of a well-formed subtree is known to the map.
pub proof fn lemma_ids_known(
    t: Shape,
    nodes: Map<u64, NodeView>,
    lo: Option<KeyView>,
    hi: Option<KeyView>,
    h: nat,
)
    requires
        wf_shape(t, nodes, lo, hi, h),
    ensures
        forall|x: u64| #[trigger] has_id(t, x, h) ==> nodes.contains_key(x),
    decreases h,
{
    match t {
        Shape::Leaf(id) => {},
        Shape::Inner(id, cs) => {
            assert(t->1 == cs);
            assert forall|x: u64| #[trigger] has_id(t, x, h) implies nodes.contains_key(x) by {
                if x != id {
                    let i = choose|i: int| 0 <= i < cs.len() && has_id(cs[i], x, (h - 1) as nat);
                    lemma_ids_known(
                        cs[i],
                        nodes,
                        child_lo(nodes[id].keys, lo, i),
                        child_hi(nodes[id].keys, hi, i),
                        (h - 1) as nat,
                    );
                }
            }
        },
    }
}

/// The pages of an internal node's subtree: its own and its children's.
pub proof fn lemma_inner_ids(id: u64, cs: Seq<Shape>, h: nat, x: u64)
    requires
        h > 0,
    ensures
        has_id(Shape::Inner(id, cs), x, h) == (id == x || (h > 0 && exists|i: int|
            0 <= i < cs.len() && has_id(cs[i], x, (h - 1) as nat))),
{
    let t = Shape::Inner(id, cs);
    assert(t is Inner);
    assert(t->Inner_0 == id);
    assert(t->1 == cs);
}

// ---------------------------------------------------------------------------
// Routing after a separator is added or the separators are cut
// ---------------------------------------------------------------------------

#[verifier::spinoff_prover]
pub proof fn lemma_route_insert(keys: Seq<KeyView>, sep: KeyView, pos: int, k: KeyView)
    requires
        0 <= pos <= keys.len(),
        sorted_le(keys),
        pos > 0 ==> key_le(keys[pos - 1], sep),
        pos < keys.len() ==> key_le(sep, keys[pos]),
    ensures
        ({
            let i = route(keys, k);
            let r = route(keys.insert(pos, sep), k);
            &&& i < pos ==> r == i
            &&& i > pos ==> r == i + 1
            &&& i == pos ==> r == if key_lt(k, sep) {
                pos
            } else {
                pos + 1
            }
        }),
{
    lemma_key_order();
    lemma_route(keys, k);
    let i = route(keys, k);
    let ks2 = keys.insert(pos, sep);
    if i < pos {
        assert forall|j: int| 0 <= j < i implies !key_lt(k, #[trigger] ks2[j]) by {
            assert(ks2[j] == keys[j]);
        }
        assert(ks2[i] == keys[i]);
        lemma_route_unique(ks2, k, i);
    } else if i > pos {
        assert(!key_lt(k, keys[pos]));
        assert forall|j: int| 0 <= j < i + 1 implies !key_lt(k, #[trigger] ks2[j]) by {
            if j < pos {
                assert(ks2[j] == keys[j]);
            } else if j == pos {
                assert(ks2[j] == sep);
            } else {
                assert(ks2[j] == keys[j - 1]);
            }
        }
        if i + 1 < ks2.len() {
            assert(ks2[i + 1] == keys[i]);
        }
        lemma_route_unique(ks2, k, i + 1);
    } else {
        if key_lt(k, sep) {
            assert forall|j: int| 0 <= j < pos implies !key_lt(k, #[trigger] ks2[j]) by {
                assert(ks2[j] == keys[j]);
            }
            lemma_route_unique(ks2, k, pos);
        } else {
            assert forall|j: int| 0 <= j < pos + 1 implies !key_lt(k, #[trigger] ks2[j]) by {
                if j < pos {
                    assert(ks2[j] == keys[j]);
                }
            }
            if pos + 1 < ks2.len() {
                assert(ks2[pos + 1] == keys[pos]);
            }
            lemma_route_unique(ks2, k, pos + 1);
        }
    }
}

#[verifier::spinoff_prover]
pub proof fn lemma_route_split(keys: Seq<KeyView>, mid: int, k: KeyView)
    requires
        sorted_le(keys),
        0 <= mid < keys.len(),
    ensures
        key_lt(k, keys[mid]) ==> route(keys, k) <= mid && route(keys.subrange(0, mid), k) == route(
            keys,
            k,
        ),
        !key_lt(k, keys[mid]) ==> route(keys, k) >= mid + 1 && route(
            keys.subrange(mid + 1, keys.len() as int),
            k,
        ) == route(keys, k) - mid - 1,
{
    lemma_key_order();
    lemma_route(keys, k);
    let i = route(keys, k);
    if key_lt(k, keys[mid]) {
        let pre = keys.subrange(0, mid);
        assert forall|j: int| 0 <= j < i implies !key_lt(k, #[trigger] pre[j]) by {
            assert(pre[j] == keys[j]);
        }
        if i < mid {
            assert(pre[i] == keys[i]);
        }
        lemma_route_unique(pre, k, i);
    } else {
        if i <= mid {
            assert(key_le(keys[i], keys[mid]));
        }
        let suf = keys.subrange(mid + 1, keys.len() as int);
        assert forall|j: int| 0 <= j < i - mid - 1 implies !key_lt(k, #[trigger] suf[j]) by {
            assert(suf[j] == keys[mid + 1 + j]);
        }
        if i - mid - 1 < suf.len() {
            assert(suf[i - mid - 1] == keys[i]);
        }
        lemma_route_unique(suf, k, i - mid - 1);
    }
}

// ---------------------------------------------------------------------------
// Leaves
// ---------------------------------------------------------------------------

pub open spec fn leaf_with_keys(n: NodeView, keys: Seq<KeyView>, values: Seq<Seq<u8>>) -> NodeView {
    NodeView { keys, values, ..n }
}

/// Adding a key that a leaf lacks, at its routing position, keeps the leaf sorted.
#[verifier::spinoff_prover]
pub proof fn lemma_leaf_insert(
    n: NodeView,
    lo: Option<KeyView>,
    hi: Option<KeyView>,
    pos: int,
    key: KeyView,
    value: Seq<u8>,
)
    requires
        leaf_ok(n, lo, hi),
        in_range(key, lo, hi),
        pos == route(n.keys, key),
        !(pos > 0 && n.keys[pos - 1] == key),
    ensures
        !n.keys.contains(key),
        leaf_ok(
            leaf_with_keys(n, n.keys.insert(pos, key), n.values.insert(pos, value)),
            lo,
            hi,
        ),
        forall|k: KeyView| #[trigger]
            leaf_get(leaf_with_keys(n, n.keys.insert(pos, key), n.values.insert(pos, value)), k)
                == if k == key {
                Some(value)
            } else {
                leaf_get(n, k)
            },
{
    lemma_key_order();
    lemma_route(n.keys, key);
    let ks = n.keys;
    let ks2 = ks.insert(pos, key);
    let vs2 = n.values.insert(pos, value);
    let n2 = leaf_with_keys(n, ks2, vs2);
    if pos > 0 {
        assert(!key_lt(key, ks[pos - 1]));
        assert(key_lt(ks[pos - 1], key));
    }
    assert forall|j: int| 0 <= j < ks.len() implies ks[j] != key by {
        if j < pos - 1 {
            assert(key_lt(ks[j], ks[pos - 1]));
        } else if j >= pos {
            if j > pos {
                assert(key_lt(ks[pos], ks[j]));
            }
        }
    }
    assert forall|i: int, j: int| 0 <= i < j < ks2.len() implies key_lt(#[trigger] ks2[i], #[trigger] ks2[j]) by {
        if i < pos {
            assert(ks2[i] == ks[i]);
            if i < pos - 1 {
                assert(key_lt(ks[i], ks[pos - 1]));
            }
        } else if i == pos {
            assert(ks2[i] == key);
        } else {
            assert(ks2[i] == ks[i - 1]);
        }
        if j < pos {
            assert(ks2[j] == ks[j]);
        } else if j == pos {
            assert(ks2[j] == key);
        } else {
            assert(ks2[j] == ks[j - 1]);
            if j - 1 > pos {
                assert(key_lt(ks[pos], ks[j - 1]));
            }
        }
    }
    assert forall|j: int| 0 <= j < ks2.len() implies in_range(#[trigger] ks2[j], lo, hi) by {
        if j < pos {
            assert(ks2[j] == ks[j]);
        } else if j > pos {
            assert(ks2[j] == ks[j - 1]);
        }
    }
    assert forall|k: KeyView| #[trigger] leaf_get(n2, k) == if k == key {
        Some(value)
    } else {
        leaf_get(n, k)
    } by {
        if k == key {
            lemma_key_index(ks2, pos);
        } else if ks.contains(k) {
            let j = choose|j: int| 0 <= j < ks.len() && ks[j] == k;
            lemma_key_index(ks, j);
            if j < pos {
                assert(ks2[j] == k);
                lemma_key_index(ks2, j);
            } else {
                assert(ks2[j + 1] == k);
                lemma_key_index(ks2, j + 1);
            }
        } else {
            if ks2.contains(k) {
                let j = choose|j: int| 0 <= j < ks2.len() && ks2[j] == k;
                if j < pos {
                    assert(ks[j] == k);
                } else if j > pos {
                    assert(ks[j - 1] == k);
                }
            }
        }
    }
}

/// Replacing the value of a key a leaf holds.
pub proof fn lemma_leaf_update(
    n: NodeView,
    lo: Option<KeyView>,
    hi: Option<KeyView>,
    i: int,
    key: KeyView,
    value: Seq<u8>,
)
    requires
        leaf_ok(n, lo, hi),
        0 <= i < n.keys.len(),
        n.keys[i] == key,
    ensures
        n.keys.contains(key),
        leaf_ok(leaf_with_keys(n, n.keys, n.values.update(i, value)), lo, hi),
        forall|k: KeyView| #[trigger]
            leaf_get(leaf_with_keys(n, n.keys, n.values.update(i, value)), k) == if k == key {
                Some(value)
            } else {
                leaf_get(n, k)
            },
{
    lemma_key_index(n.keys, i);
    let n2 = leaf_with_keys(n, n.keys, n.values.update(i, value));
    assert forall|k: KeyView| #[trigger] leaf_get(n2, k) == if k == key {
        Some(value)
    } else {
        leaf_get(n, k)
    } by {
        if k != key && n.keys.contains(k) {
            let j = choose|j: int| 0 <= j < n.keys.len() && n.keys[j] == k;
            lemma_key_index(n.keys, j);
        }
    }
}

/// Cutting a leaf at `mid` into a left part below the first right key and a right part.
#[verifier::spinoff_prover]
pub proof fn lemma_leaf_split(n: NodeView, lo: Option<KeyView>, hi: Option<KeyView>, mid: int)
    requires
        leaf_ok(n, lo, hi),
        0 <= mid < n.keys.len(),
    ensures
        ({
            let sep = n.keys[mid];
            let left = leaf_with_keys(n, n.keys.subrange(0, mid), n.values.subrange(0, mid));
            let right = leaf_with_keys(
                n,
                n.keys.subrange(mid, n.keys.len() as int),
                n.values.subrange(mid, n.keys.len() as int),
            );
            &&& ge_lo(sep, lo)
            &&& le_hi(sep, hi)
            &&& leaf_ok(left, lo, Some(sep))
            &&& leaf_ok(right, Some(sep), hi)
            &&& forall|k: KeyView|
                key_lt(k, sep) ==> #[trigger] leaf_get(left, k) == leaf_get(n, k)
            &&& forall|k: KeyView|
                !key_lt(k, sep) ==> #[trigger] leaf_get(right, k) == leaf_get(n, k)
        }),
{
    lemma_key_order();
    let ks = n.keys;
    let len = ks.len() as int;
    let sep = ks[mid];
    let lk = ks.subrange(0, mid);
    let rk = ks.subrange(mid, len);
    let left = leaf_with_keys(n, lk, n.values.subrange(0, mid));
    let right = leaf_with_keys(n, rk, n.values.subrange(mid, len));
    assert(in_range(ks[mid], lo, hi));
    assert forall|j: int| 0 <= j < lk.len() implies in_range(#[trigger] lk[j], lo, Some(sep)) by {
        assert(lk[j] == ks[j]);
        assert(in_range(ks[j], lo, hi));
    }
    assert forall|j: int| 0 <= j < rk.len() implies in_range(#[trigger] rk[j], Some(sep), hi) by {
        assert(rk[j] == ks[mid + j]);
        assert(in_range(ks[mid + j], lo, hi));
        if j > 0 {
            assert(key_lt(ks[mid], ks[mid + j]));
        }
    }
    assert forall|i: int, j: int| 0 <= i < j < lk.len() implies key_lt(#[trigger] lk[i], #[trigger] lk[j]) by {
        assert(lk[i] == ks[i] && lk[j] == ks[j]);
    }
    assert forall|i: int, j: int| 0 <= i < j < rk.len() implies key_lt(#[trigger] rk[i], #[trigger] rk[j]) by {
        assert(rk[i] == ks[mid + i] && rk[j] == ks[mid + j]);
    }
    assert forall|k: KeyView| key_lt(k, sep) implies #[trigger] leaf_get(left, k) == leaf_get(n, k) by {
        if ks.contains(k) {
            let j = choose|j: int| 0 <= j < ks.len() && ks[j] == k;
            lemma_key_index(ks, j);
            if j >= mid {
                if j > mid {
                    assert(key_lt(ks[mid], ks[j]));
                }
            }
            assert(lk[j] == k);
            lemma_key_index(lk, j);
        }
        if lk.contains(k) {
            let j = choose|j: int| 0 <= j < lk.len() && lk[j] == k;
            assert(ks[j] == k);
        }
    }
    assert forall|k: KeyView| !key_lt(k, sep) implies #[trigger] leaf_get(right, k) == leaf_get(n, k) by {
        if ks.contains(k) {
            let j = choose|j: int| 0 <= j < ks.len() && ks[j] == k;
            lemma_key_index(ks, j);
            if j < mid {
                assert(key_lt(ks[j], ks[mid]));
            }
            assert(rk[j - mid] == k);
            lemma_key_index(rk, j - mid);
        }
        if rk.contains(k) {
            let j = choose|j: int| 0 <= j < rk.len() && rk[j] == k;
            assert(ks[mid + j] == k);
        }
    }
}

// ---------------------------------------------------------------------------
// Internal nodes
// ---------------------------------------------------------------------------

/// A child replaced by a rebuilt child over the same page.
#[verifier::spinoff_prover]
pub proof fn lemma_replace_child(
    pid: u64,
    cs: Seq<Shape>,
    n0: Map<u64, NodeView>,
    n1: Map<u64, NodeView>,
    lo: Option<KeyView>,
    hi: Option<KeyView>,
    h: nat,
    pos: int,
    c2: Shape,
    a0: u64,
    a1: u64,
    key: KeyView,
    value: Seq<u8>,
)
    requires
        wf_shape(Shape::Inner(pid, cs), n0, lo, hi, h),
        0 <= pos < cs.len(),
        route(n0[pid].keys, key) == pos,
        ids_below(n0, a0),
        forall|x: u64|
            n0.contains_key(x) && !#[trigger] has_id(cs[pos], x, (h - 1) as nat) ==> n1.contains_key(
                x,
            ) && n1[x] == n0[x],
        c2.id() == cs[pos].id(),
        ids_within(c2, cs[pos], (h - 1) as nat, a0, a1),
        wf_shape(
            c2,
            n1,
            child_lo(n0[pid].keys, lo, pos),
            child_hi(n0[pid].keys, hi, pos),
            (h - 1) as nat,
        ),
        forall|k: KeyView|
            in_range(k, child_lo(n0[pid].keys, lo, pos), child_hi(n0[pid].keys, hi, pos)) ==> #[trigger] lookup(
                c2,
                n1,
                k,
                (h - 1) as nat,
            ) == updated(cs[pos], n0, (h - 1) as nat, key, value, k),
    ensures
        wf_shape(Shape::Inner(pid, cs.update(pos, c2)), n1, lo, hi, h),
        forall|k: KeyView|
            in_range(k, lo, hi) ==> #[trigger] lookup(Shape::Inner(pid, cs.update(pos, c2)), n1, k, h)
                == updated(Shape::Inner(pid, cs), n0, h, key, value, k),
        ids_within(Shape::Inner(pid, cs.update(pos, c2)), Shape::Inner(pid, cs), h, a0, a1),
{
    let t = Shape::Inner(pid, cs);
    let cs2 = cs.update(pos, c2);
    let t2 = Shape::Inner(pid, cs2);
    assert(t->1 == cs);
    assert(t2->1 == cs2);
    let hc = (h - 1) as nat;
    lemma_ids_known(t, n0, lo, hi, h);
    lemma_has_own_id(t, h);
    assert(n1[pid] == n0[pid]);
    let keys = n0[pid].keys;
    assert forall|i: int| 0 <= i < cs.len() && i != pos implies same_on(cs[i], hc, n0, n1) by {
        assert forall|x: u64| #[trigger] has_id(cs[i], x, hc) implies n1.contains_key(x) && n0.contains_key(x)
            && n1[x] == n0[x] by {
            lemma_child_ids(pid, cs, i, x, h);
            assert(!has_id(cs[pos], x, hc));
        }
    }
    assert forall|i: int| 0 <= i < cs2.len() implies wf_shape(
        #[trigger] cs2[i],
        n1,
        child_lo(n1[pid].keys, lo, i),
        child_hi(n1[pid].keys, hi, i),
        hc,
    ) by {
        if i != pos {
            lemma_frame(cs[i], n0, n1, child_lo(keys, lo, i), child_hi(keys, hi, i), hc);
        }
    }
    assert(child_ids(cs2) =~= child_ids(cs)) by {
        assert forall|i: int| 0 <= i < cs2.len() implies #[trigger] child_ids(cs2)[i] == child_ids(cs)[i] by {
            if i == pos {
                assert(cs2[i] == c2);
            }
        }
    }
    assert forall|i: int| 0 <= i < cs2.len() implies !has_id(#[trigger] cs2[i], pid, hc) by {
        if i == pos {
            if has_id(c2, pid, hc) {
                assert(has_id(cs[pos], pid, hc) || (a0 <= pid < a1));
            }
        }
    }
    assert forall|i: int, j: int, x: u64|
        0 <= i < cs2.len() && 0 <= j < cs2.len() && i != j && #[trigger] has_id(cs2[i], x, hc)
            implies !#[trigger] has_id(cs2[j], x, hc) by {
        if i == pos {
            if has_id(cs2[j], x, hc) {
                lemma_child_ids(pid, cs, j, x, h);
                assert(n0.contains_key(x));
                assert(has_id(cs[pos], x, hc));
            }
        } else if j == pos {
            lemma_child_ids(pid, cs, i, x, h);
            assert(n0.contains_key(x));
            if has_id(c2, x, hc) {
                assert(has_id(cs[pos], x, hc));
            }
        }
    }
    assert(wf_shape(t2, n1, lo, hi, h));
    assert forall|k: KeyView| in_range(k, lo, hi) implies #[trigger] lookup(t2, n1, k, h) == updated(
        t,
        n0,
        h,
        key,
        value,
        k,
    ) by {
        let i = route(keys, k);
        lemma_route(keys, k);
        lemma_route_in_child(keys, k, lo, hi);
        if i != pos {
            lemma_frame(cs[i], n0, n1, child_lo(keys, lo, i), child_hi(keys, hi, i), hc);
            assert(k != key);
            assert(cs2[i] == cs[i]);
            assert(lookup(cs[i], n1, k, hc) == lookup(cs[i], n0, k, hc));
        } else {
            assert(cs2[i] == c2);
            assert(lookup(c2, n1, k, hc) == updated(cs[pos], n0, hc, key, value, k));
        }
    }
    assert forall|x: u64| #[trigger] has_id(t2, x, h) implies has_id(t, x, h) || (a0 <= x < a1) by {
        lemma_inner_ids(pid, cs2, h, x);
        if x != pid {
            let i = choose|i: int| 0 <= i < cs2.len() && has_id(cs2[i], x, hc);
            if i == pos {
                if has_id(cs[pos], x, hc) {
                    lemma_child_ids(pid, cs, pos, x, h);
                }
            } else {
                lemma_child_ids(pid, cs, i, x, h);
            }
        }
    }
}


/// What a subtree holds for `k` once `key` is gone.
pub open spec fn removed(t: Shape, nodes: Map<u64, NodeView>, h: nat, key: KeyView, k: KeyView) -> Option<Seq<u8>> {
    if k == key {
        None
    } else {
        lookup(t, nodes, k, h)
    }
}

/// A child replaced by a rebuilt child over the same page, with `key` gone.
#[verifier::spinoff_prover]
pub proof fn lemma_replace_child_removed(
    pid: u64,
    cs: Seq<Shape>,
    n0: Map<u64, NodeView>,
    n1: Map<u64, NodeView>,
    lo: Option<KeyView>,
    hi: Option<KeyView>,
    h: nat,
    pos: int,
    c2: Shape,
    a0: u64,
    a1: u64,
    key: KeyView,
)
    requires
        wf_shape(Shape::Inner(pid, cs), n0, lo, hi, h),
        0 <= pos < cs.len(),
        route(n0[pid].keys, key) == pos,
        ids_below(n0, a0),
        forall|x: u64|
            n0.contains_key(x) && !#[trigger] has_id(cs[pos], x, (h - 1) as nat) ==> n1.contains_key(
                x,
            ) && n1[x] == n0[x],
        c2.id() == cs[pos].id(),
        ids_within(c2, cs[pos], (h - 1) as nat, a0, a1),
        wf_shape(
            c2,
            n1,
            child_lo(n0[pid].keys, lo, pos),
            child_hi(n0[pid].keys, hi, pos),
            (h - 1) as nat,
        ),
        forall|k: KeyView|
            in_range(k, child_lo(n0[pid].keys, lo, pos), child_hi(n0[pid].keys, hi, pos)) ==> #[trigger] lookup(
                c2,
                n1,
                k,
                (h - 1) as nat,
            ) == removed(cs[pos], n0, (h - 1) as nat, key, k),
    ensures
        wf_shape(Shape::Inner(pid, cs.update(pos, c2)), n1, lo, hi, h),
        forall|k: KeyView|
            in_range(k, lo, hi) ==> #[trigger] lookup(Shape::Inner(pid, cs.update(pos, c2)), n1, k, h)
                == removed(Shape::Inner(pid, cs), n0, h, key, k),
        ids_within(Shape::Inner(pid, cs.update(pos, c2)), Shape::Inner(pid, cs), h, a0, a1),
{
    let t = Shape::Inner(pid, cs);
    let cs2 = cs.update(pos, c2);
    let t2 = Shape::Inner(pid, cs2);
    assert(t->1 == cs);
    assert(t2->1 == cs2);
    let hc = (h - 1) as nat;
    lemma_ids_known(t, n0, lo, hi, h);
    lemma_has_own_id(t, h);
    assert(n1[pid] == n0[pid]);
    let keys = n0[pid].keys;
    assert forall|i: int| 0 <= i < cs.len() && i != pos implies same_on(cs[i], hc, n0, n1) by {
        assert forall|x: u64| #[trigger] has_id(cs[i], x, hc) implies n1.contains_key(x) && n0.contains_key(x)
            && n1[x] == n0[x] by {
            lemma_child_ids(pid, cs, i, x, h);
            assert(!has_id(cs[pos], x, hc));
        }
    }
    assert forall|i: int| 0 <= i < cs2.len() implies wf_shape(
        #[trigger] cs2[i],
        n1,
        child_lo(n1[pid].keys, lo, i),
        child_hi(n1[pid].keys, hi, i),
        hc,
    ) by {
        if i != pos {
            lemma_frame(cs[i], n0, n1, child_lo(keys, lo, i), child_hi(keys, hi, i), hc);
        }
    }
    assert(child_ids(cs2) =~= child_ids(cs)) by {
        assert forall|i: int| 0 <= i < cs2.len() implies #[trigger] child_ids(cs2)[i] == child_ids(cs)[i] by {
            if i == pos {
                assert(cs2[i] == c2);
            }
        }
    }
    assert forall|i: int| 0 <= i < cs2.len() implies !has_id(#[trigger] cs2[i], pid, hc) by {
        if i == pos {
            if has_id(c2, pid, hc) {
                assert(has_id(cs[pos], pid, hc) || (a0 <= pid < a1));
            }
        }
    }
    assert forall|i: int, j: int, x: u64|
        0 <= i < cs2.len() && 0 <= j < cs2.len() && i != j && #[trigger] has_id(cs2[i], x, hc)
            implies !#[trigger] has_id(cs2[j], x, hc) by {
        if i == pos {
            if has_id(cs2[j], x, hc) {
                lemma_child_ids(pid, cs, j, x, h);
                assert(n0.contains_key(x));
                assert(has_id(cs[pos], x, hc));
            }
        } else if j == pos {
            lemma_child_ids(pid, cs, i, x, h);
            assert(n0.contains_key(x));
            if has_id(c2, x, hc) {
                assert(has_id(cs[pos], x, hc));
            }
        }
    }
    assert(wf_shape(t2, n1, lo, hi, h));
    assert forall|k: KeyView| in_range(k, lo, hi) implies #[trigger] lookup(t2, n1, k, h) == removed(t, n0, h, key, k) by {
        let i = route(keys, k);
        lemma_route(keys, k);
        lemma_route_in_child(keys, k, lo, hi);
        if i != pos {
            lemma_frame(cs[i], n0, n1, child_lo(keys, lo, i), child_hi(keys, hi, i), hc);
            assert(k != key);
            assert(cs2[i] == cs[i]);
            assert(lookup(cs[i], n1, k, hc) == lookup(cs[i], n0, k, hc));
        } else {
            assert(cs2[i] == c2);
            assert(lookup(c2, n1, k, hc) == removed(cs[pos], n0, hc, key, k));
        }
    }
    assert forall|x: u64| #[trigger] has_id(t2, x, h) implies has_id(t, x, h) || (a0 <= x < a1) by {
        lemma_inner_ids(pid, cs2, h, x);
        if x != pid {
            let i = choose|i: int| 0 <= i < cs2.len() && has_id(cs2[i], x, hc);
            if i == pos {
                if has_id(cs[pos], x, hc) {
                    lemma_child_ids(pid, cs, pos, x, h);
                }
            } else {
                lemma_child_ids(pid, cs, i, x, h);
            }
        }
    }
}


/// Separators stay ascending when one that fits between its neighbours is added.
pub proof fn lemma_sorted_insert(keys: Seq<KeyView>, pos: int, sep: KeyView)
    requires
        sorted_le(keys),
        0 <= pos <= keys.len(),
        pos > 0 ==> key_le(keys[pos - 1], sep),
        pos < keys.len() ==> key_le(sep, keys[pos]),
    ensures
        sorted_le(keys.insert(pos, sep)),
{
    lemma_key_order();
    let ks2 = keys.insert(pos, sep);
    assert forall|i: int, j: int| 0 <= i < j < ks2.len() implies key_le(#[trigger] ks2[i], #[trigger] ks2[j]) by {
        if i < pos && j < pos {
            assert(ks2[i] == keys[i] && ks2[j] == keys[j]);
        } else if i < pos && j == pos {
            assert(ks2[i] == keys[i]);
            if i < pos - 1 {
                assert(key_le(keys[i], keys[pos - 1]));
            }
        } else if i < pos {
            assert(ks2[i] == keys[i] && ks2[j] == keys[j - 1]);
        } else if i == pos {
            assert(ks2[j] == keys[j - 1]);
            if j - 1 > pos {
                assert(key_le(keys[pos], keys[j - 1]));
            }
        } else {
            assert(ks2[i] == keys[i - 1] && ks2[j] == keys[j - 1]);
        }
    }
}

/// The child at `pos` split in two around `sep`; the parent gains `sep` and the new child.
#[verifier::spinoff_prover]
#[verifier::rlimit(60)]
pub proof fn lemma_child_split(
    pid: u64,
    cs: Seq<Shape>,
    n0: Map<u64, NodeView>,
    n1: Map<u64, NodeView>,
    lo: Option<KeyView>,
    hi: Option<KeyView>,
    h: nat,
    pos: int,
    c2: Shape,
    cr: Shape,
    sep: KeyView,
    a0: u64,
    a1: u64,
    key: KeyView,
    value: Seq<u8>,
)
    requires
        wf_shape(Shape::Inner(pid, cs), n0, lo, hi, h),
        0 <= pos < cs.len(),
        route(n0[pid].keys, key) == pos,
        ids_below(n0, a0),
        forall|x: u64|
            n0.contains_key(x) && !#[trigger] has_id(cs[pos], x, (h - 1) as nat) ==> n1.contains_key(
                x,
            ) && n1[x] == n0[x],
        c2.id() == cs[pos].id(),
        ids_within(c2, cs[pos], (h - 1) as nat, a0, a1),
        ids_within(cr, cs[pos], (h - 1) as nat, a0, a1),
        a0 <= cr.id() < a1,
        forall|x: u64| !(#[trigger] has_id(c2, x, (h - 1) as nat) && #[trigger] has_id(cr, x, (h - 1) as nat)),
        ge_lo(sep, child_lo(n0[pid].keys, lo, pos)),
        le_hi(sep, child_hi(n0[pid].keys, hi, pos)),
        wf_shape(c2, n1, child_lo(n0[pid].keys, lo, pos), Some(sep), (h - 1) as nat),
        wf_shape(cr, n1, Some(sep), child_hi(n0[pid].keys, hi, pos), (h - 1) as nat),
        forall|k: KeyView|
            in_range(k, child_lo(n0[pid].keys, lo, pos), child_hi(n0[pid].keys, hi, pos)) && key_lt(k, sep)
                ==> #[trigger] lookup(c2, n1, k, (h - 1) as nat) == updated(
                cs[pos],
                n0,
                (h - 1) as nat,
                key,
                value,
                k,
            ),
        forall|k: KeyView|
            in_range(k, child_lo(n0[pid].keys, lo, pos), child_hi(n0[pid].keys, hi, pos)) && !key_lt(k, sep)
                ==> #[trigger] lookup(cr, n1, k, (h - 1) as nat) == updated(
                cs[pos],
                n0,
                (h - 1) as nat,
                key,
                value,
                k,
            ),
    ensures
        ({
            let np = NodeView {
                keys: n0[pid].keys.insert(pos, sep),
                children: n0[pid].children.insert(pos + 1, cr.id()),
                ..n0[pid]
            };
            let n2 = n1.insert(pid, np);
            let t2 = Shape::Inner(pid, cs.update(pos, c2).insert(pos + 1, cr));
            &&& wf_shape(t2, n2, lo, hi, h)
            &&& forall|k: KeyView|
                in_range(k, lo, hi) ==> #[trigger] lookup(t2, n2, k, h) == updated(
                    Shape::Inner(pid, cs),
                    n0,
                    h,
                    key,
                    value,
                    k,
                )
            &&& ids_within(t2, Shape::Inner(pid, cs), h, a0, a1)
        }),
{
    lemma_key_order();
    let t = Shape::Inner(pid, cs);
    assert(t->1 == cs);
    let hc = (h - 1) as nat;
    let keys = n0[pid].keys;
    let np = NodeView {
        keys: keys.insert(pos, sep),
        children: n0[pid].children.insert(pos + 1, cr.id()),
        ..n0[pid]
    };
    let n2 = n1.insert(pid, np);
    let cs2 = cs.update(pos, c2).insert(pos + 1, cr);
    let t2 = Shape::Inner(pid, cs2);
    assert(t2->1 == cs2);
    let keys2 = keys.insert(pos, sep);
    lemma_ids_known(t, n0, lo, hi, h);
    lemma_has_own_id(t, h);
    // Where each new child came from.
    assert forall|j: int| 0 <= j < cs2.len() implies #[trigger] cs2[j] == if j < pos {
        cs[j]
    } else if j == pos {
        c2
    } else if j == pos + 1 {
        cr
    } else {
        cs[j - 1]
    } by {}
    // The parent's own page is in no child.
    assert(!has_id(cs[pos], pid, hc));
    assert(!has_id(c2, pid, hc)) by {
        if has_id(c2, pid, hc) {
            assert(has_id(cs[pos], pid, hc) || (a0 <= pid < a1));
        }
    }
    assert(!has_id(cr, pid, hc)) by {
        if has_id(cr, pid, hc) {
            assert(has_id(cs[pos], pid, hc) || (a0 <= pid < a1));
        }
    }
    // The rebuilt children read the same nodes once the parent is rewritten.
    lemma_ids_known(c2, n1, child_lo(keys, lo, pos), Some(sep), hc);
    lemma_ids_known(cr, n1, Some(sep), child_hi(keys, hi, pos), hc);
    assert(same_on(c2, hc, n1, n2));
    assert(same_on(cr, hc, n1, n2));
    lemma_frame(c2, n1, n2, child_lo(keys, lo, pos), Some(sep), hc);
    lemma_frame(cr, n1, n2, Some(sep), child_hi(keys, hi, pos), hc);
    // The other children read the same nodes as before.
    assert forall|i: int| 0 <= i < cs.len() && i != pos implies same_on(cs[i], hc, n0, n2) by {
        assert forall|x: u64| #[trigger] has_id(cs[i], x, hc) implies n2.contains_key(x) && n0.contains_key(x)
            && n2[x] == n0[x] by {
            lemma_child_ids(pid, cs, i, x, h);
            assert(!has_id(cs[pos], x, hc));
            assert(!has_id(cs[i], pid, hc));
        }
    }
    // Separators.
    if pos > 0 {
        assert(key_le(keys[pos - 1], sep));
        assert(ge_lo(keys[pos - 1], lo));
    }
    if pos < keys.len() {
        assert(key_le(sep, keys[pos]));
        assert(le_hi(keys[pos], hi));
    }
    lemma_sorted_insert(keys, pos, sep);
    assert(ge_lo(sep, lo) && le_hi(sep, hi));
    assert forall|i: int| 0 <= i < keys2.len() implies ge_lo(#[trigger] keys2[i], lo) && le_hi(keys2[i], hi) by {
        if i < pos {
            assert(keys2[i] == keys[i]);
        } else if i > pos {
            assert(keys2[i] == keys[i - 1]);
        }
    }
    assert(np.children =~= child_ids(cs2)) by {
        assert forall|j: int| 0 <= j < cs2.len() implies #[trigger] child_ids(cs2)[j] == np.children[j] by {
            assert(n0[pid].children == child_ids(cs));
            if j < pos {
                assert(np.children[j] == n0[pid].children[j]);
            } else if j == pos {
                assert(np.children[j] == n0[pid].children[j]);
            } else if j > pos + 1 {
                assert(np.children[j] == n0[pid].children[j - 1]);
            }
        }
    }
    assert(inner_ok(np, cs2, lo, hi));
    // Each child is well formed within its new bounds.
    assert forall|j: int| 0 <= j < cs2.len() implies wf_shape(
        #[trigger] cs2[j],
        n2,
        child_lo(keys2, lo, j),
        child_hi(keys2, hi, j),
        hc,
    ) by {
        if j < pos {
            assert(child_lo(keys2, lo, j) == child_lo(keys, lo, j));
            assert(child_hi(keys2, hi, j) == child_hi(keys, hi, j));
            lemma_frame(cs[j], n0, n2, child_lo(keys, lo, j), child_hi(keys, hi, j), hc);
        } else if j == pos {
            assert(child_lo(keys2, lo, j) == child_lo(keys, lo, j));
            assert(child_hi(keys2, hi, j) == Some(sep));
        } else if j == pos + 1 {
            assert(child_lo(keys2, lo, j) == Some(sep));
            assert(child_hi(keys2, hi, j) == child_hi(keys, hi, pos));
        } else {
            assert(child_lo(keys2, lo, j) == child_lo(keys, lo, j - 1));
            assert(child_hi(keys2, hi, j) == child_hi(keys, hi, j - 1));
            lemma_frame(cs[j - 1], n0, n2, child_lo(keys, lo, j - 1), child_hi(keys, hi, j - 1), hc);
        }
    }
    // No child holds the parent's page, and no two children share a page.
    assert forall|j: int| 0 <= j < cs2.len() implies !has_id(#[trigger] cs2[j], pid, hc) by {
        if j < pos {
        } else if j > pos + 1 {
            assert(!has_id(cs[j - 1], pid, hc));
        }
    }
    assert forall|i: int, j: int, x: u64|
        0 <= i < cs2.len() && 0 <= j < cs2.len() && i != j && #[trigger] has_id(cs2[i], x, hc)
            implies !#[trigger] has_id(cs2[j], x, hc) by {
        let oi = if i <= pos { i } else { i - 1 };
        let oj = if j <= pos { j } else { j - 1 };
        if (i == pos || i == pos + 1) && (j == pos || j == pos + 1) {
        } else if i == pos || i == pos + 1 {
            if has_id(cs2[j], x, hc) {
                lemma_child_ids(pid, cs, oj, x, h);
                assert(n0.contains_key(x));
                assert(has_id(cs[pos], x, hc));
                assert(!has_id(cs[oj], x, hc));
            }
        } else if j == pos || j == pos + 1 {
            lemma_child_ids(pid, cs, oi, x, h);
            assert(n0.contains_key(x));
            if has_id(cs2[j], x, hc) {
                assert(has_id(cs[pos], x, hc));
                assert(!has_id(cs[oi], x, hc));
            }
        } else {
            assert(cs2[i] == cs[oi] && cs2[j] == cs[oj]);
            assert(oi != oj);
        }
    }
    assert(n2[pid] == np);
    assert(wf_shape(t2, n2, lo, hi, h));
    // Routing through the new separator.
    assert forall|k: KeyView| in_range(k, lo, hi) implies #[trigger] lookup(t2, n2, k, h) == updated(
        t,
        n0,
        h,
        key,
        value,
        k,
    ) by {
        let i = route(keys, k);
        lemma_route(keys, k);
        lemma_route_in_child(keys, k, lo, hi);
        lemma_route_insert(keys, sep, pos, k);
        let r = route(keys2, k);
        if i < pos {
            lemma_frame(cs[i], n0, n2, child_lo(keys, lo, i), child_hi(keys, hi, i), hc);
            assert(lookup(cs[i], n2, k, hc) == lookup(cs[i], n0, k, hc));
            assert(k != key);
        } else if i > pos {
            lemma_frame(cs[i], n0, n2, child_lo(keys, lo, i), child_hi(keys, hi, i), hc);
            assert(cs2[i + 1] == cs[i]);
            assert(lookup(cs[i], n2, k, hc) == lookup(cs[i], n0, k, hc));
            assert(k != key);
        } else if key_lt(k, sep) {
            assert(lookup(c2, n2, k, hc) == lookup(c2, n1, k, hc));
        } else {
            assert(lookup(cr, n2, k, hc) == lookup(cr, n1, k, hc));
        }
    }
    assert forall|x: u64| #[trigger] has_id(t2, x, h) implies has_id(t, x, h) || (a0 <= x < a1) by {
        lemma_inner_ids(pid, cs2, h, x);
        if x != pid {
            let j = choose|j: int| 0 <= j < cs2.len() && has_id(cs2[j], x, hc);
            if j == pos || j == pos + 1 {
                if has_id(cs[pos], x, hc) {
                    lemma_child_ids(pid, cs, pos, x, h);
                }
            } else if j < pos {
                lemma_child_ids(pid, cs, j, x, h);
            } else {
                lemma_child_ids(pid, cs, j - 1, x, h);
            }
        }
    }
}

pub open spec fn inner_with(n: NodeView, keys: Seq<KeyView>, children: Seq<u64>) -> NodeView {
    NodeView { keys, children, ..n }
}

/// Splitting an internal node at its middle separator, which moves up.
#[verifier::spinoff_prover]
pub proof fn lemma_inner_split(
    pid: u64,
    cs: Seq<Shape>,
    n: Map<u64, NodeView>,
    lo: Option<KeyView>,
    hi: Option<KeyView>,
    h: nat,
    rid: u64,
    mid: int,
    base: NodeView,
)
    requires
        wf_shape(Shape::Inner(pid, cs), n, lo, hi, h),
        0 <= mid < n[pid].keys.len(),
        !has_id(Shape::Inner(pid, cs), rid, h),
        !base.is_leaf,
    ensures
        ({
            let keys = n[pid].keys;
            let len = keys.len() as int;
            let sep = keys[mid];
            let ln = inner_with(n[pid], keys.subrange(0, mid), n[pid].children.subrange(0, mid + 1));
            let rn = inner_with(
                base,
                keys.subrange(mid + 1, len),
                n[pid].children.subrange(mid + 1, len + 1),
            );
            let n2 = n.insert(pid, ln).insert(rid, rn);
            let tl = Shape::Inner(pid, cs.subrange(0, mid + 1));
            let tr = Shape::Inner(rid, cs.subrange(mid + 1, len + 1));
            &&& ge_lo(sep, lo)
            &&& le_hi(sep, hi)
            &&& wf_shape(tl, n2, lo, Some(sep), h)
            &&& wf_shape(tr, n2, Some(sep), hi, h)
            &&& forall|k: KeyView|
                in_range(k, lo, hi) && key_lt(k, sep) ==> #[trigger] lookup(tl, n2, k, h) == lookup(
                    Shape::Inner(pid, cs),
                    n,
                    k,
                    h,
                )
            &&& forall|k: KeyView|
                in_range(k, lo, hi) && !key_lt(k, sep) ==> #[trigger] lookup(tr, n2, k, h) == lookup(
                    Shape::Inner(pid, cs),
                    n,
                    k,
                    h,
                )
            &&& forall|x: u64| #[trigger] has_id(tl, x, h) ==> has_id(Shape::Inner(pid, cs), x, h)
            &&& forall|x: u64|
                #[trigger] has_id(tr, x, h) ==> has_id(Shape::Inner(pid, cs), x, h) || x == rid
            &&& forall|x: u64| !(#[trigger] has_id(tl, x, h) && #[trigger] has_id(tr, x, h))
        }),
{
    lemma_key_order();
    let t = Shape::Inner(pid, cs);
    assert(t->1 == cs);
    let hc = (h - 1) as nat;
    let keys = n[pid].keys;
    let len = keys.len() as int;
    let sep = keys[mid];
    let ch = n[pid].children;
    let lk = keys.subrange(0, mid);
    let rk = keys.subrange(mid + 1, len);
    let ln = inner_with(n[pid], lk, ch.subrange(0, mid + 1));
    let rn = inner_with(base, rk, ch.subrange(mid + 1, len + 1));
    let n2 = n.insert(pid, ln).insert(rid, rn);
    let lcs = cs.subrange(0, mid + 1);
    let rcs = cs.subrange(mid + 1, len + 1);
    let tl = Shape::Inner(pid, lcs);
    let tr = Shape::Inner(rid, rcs);
    assert(tl->1 == lcs);
    assert(tr->1 == rcs);
    lemma_ids_known(t, n, lo, hi, h);
    lemma_has_own_id(t, h);
    assert(pid != rid);
    assert forall|i: int| 0 <= i < cs.len() implies !#[trigger] has_id(cs[i], rid, hc) by {
        if has_id(cs[i], rid, hc) {
            lemma_child_ids(pid, cs, i, rid, h);
        }
    }
    // Children read the same nodes as before.
    assert forall|i: int| 0 <= i < cs.len() implies same_on(cs[i], hc, n, n2) by {
        assert forall|x: u64| #[trigger] has_id(cs[i], x, hc) implies n2.contains_key(x) && n.contains_key(x)
            && n2[x] == n[x] by {
            lemma_child_ids(pid, cs, i, x, h);
            assert(!has_id(cs[i], pid, hc));
        }
    }
    assert(ge_lo(sep, lo) && le_hi(sep, hi));
    // Left half.
    assert(ch == child_ids(cs));
    assert(ln.children =~= child_ids(lcs)) by {
        assert forall|j: int| 0 <= j < lcs.len() implies #[trigger] child_ids(lcs)[j] == ln.children[j] by {
            assert(lcs[j] == cs[j]);
        }
    }
    assert forall|i: int, j: int| 0 <= i < j < lk.len() implies key_le(#[trigger] lk[i], #[trigger] lk[j]) by {
        assert(lk[i] == keys[i] && lk[j] == keys[j]);
    }
    assert forall|i: int| 0 <= i < lk.len() implies ge_lo(#[trigger] lk[i], lo) && le_hi(lk[i], Some(sep)) by {
        assert(lk[i] == keys[i]);
    }
    assert forall|j: int| 0 <= j < lcs.len() implies wf_shape(
        #[trigger] lcs[j],
        n2,
        child_lo(lk, lo, j),
        child_hi(lk, Some(sep), j),
        hc,
    ) by {
        assert(lcs[j] == cs[j]);
        assert(child_lo(lk, lo, j) == child_lo(keys, lo, j));
        assert(child_hi(lk, Some(sep), j) == child_hi(keys, hi, j));
        lemma_frame(cs[j], n, n2, child_lo(keys, lo, j), child_hi(keys, hi, j), hc);
    }
    assert forall|i: int, j: int, x: u64|
        0 <= i < lcs.len() && 0 <= j < lcs.len() && i != j && #[trigger] has_id(lcs[i], x, hc)
            implies !#[trigger] has_id(lcs[j], x, hc) by {
        assert(lcs[i] == cs[i] && lcs[j] == cs[j]);
    }
    assert forall|j: int| 0 <= j < lcs.len() implies !has_id(#[trigger] lcs[j], pid, hc) by {
        assert(lcs[j] == cs[j]);
    }
    assert(n2[pid] == ln);
    assert(wf_shape(tl, n2, lo, Some(sep), h));
    // Right half.
    assert(rn.children =~= child_ids(rcs)) by {
        assert forall|j: int| 0 <= j < rcs.len() implies #[trigger] child_ids(rcs)[j] == rn.children[j] by {
            assert(rcs[j] == cs[mid + 1 + j]);
        }
    }
    assert forall|i: int, j: int| 0 <= i < j < rk.len() implies key_le(#[trigger] rk[i], #[trigger] rk[j]) by {
        assert(rk[i] == keys[mid + 1 + i] && rk[j] == keys[mid + 1 + j]);
    }
    assert forall|i: int| 0 <= i < rk.len() implies ge_lo(#[trigger] rk[i], Some(sep)) && le_hi(rk[i], hi) by {
        assert(rk[i] == keys[mid + 1 + i]);
    }
    assert forall|j: int| 0 <= j < rcs.len() implies wf_shape(
        #[trigger] rcs[j],
        n2,
        child_lo(rk, Some(sep), j),
        child_hi(rk, hi, j),
        hc,
    ) by {
        assert(rcs[j] == cs[mid + 1 + j]);
        assert(child_lo(rk, Some(sep), j) == child_lo(keys, lo, mid + 1 + j));
        assert(child_hi(rk, hi, j) == child_hi(keys, hi, mid + 1 + j));
        lemma_frame(
            cs[mid + 1 + j],
            n,
            n2,
            child_lo(keys, lo, mid + 1 + j),
            child_hi(keys, hi, mid + 1 + j),
            hc,
        );
    }
    assert forall|i: int, j: int, x: u64|
        0 <= i < rcs.len() && 0 <= j < rcs.len() && i != j && #[trigger] has_id(rcs[i], x, hc)
            implies !#[trigger] has_id(rcs[j], x, hc) by {
        assert(rcs[i] == cs[mid + 1 + i] && rcs[j] == cs[mid + 1 + j]);
    }
    assert forall|j: int| 0 <= j < rcs.len() implies !has_id(#[trigger] rcs[j], rid, hc) by {
        assert(rcs[j] == cs[mid + 1 + j]);
    }
    assert(n2[rid] == rn);
    assert(wf_shape(tr, n2, Some(sep), hi, h));
    // Lookups.
    assert forall|k: KeyView| in_range(k, lo, hi) && key_lt(k, sep) implies #[trigger] lookup(tl, n2, k, h)
        == lookup(t, n, k, h) by {
        lemma_route_split(keys, mid, k);
        let i = route(keys, k);
        lemma_route(keys, k);
        assert(lcs[i] == cs[i]);
        assert(n2[pid].keys == lk);
        assert(route(lk, k) == i);
        assert(lookup(tl, n2, k, h) == lookup(lcs[i], n2, k, hc));
        lemma_frame(cs[i], n, n2, child_lo(keys, lo, i), child_hi(keys, hi, i), hc);
        assert(lookup(cs[i], n2, k, hc) == lookup(cs[i], n, k, hc));
    }
    assert forall|k: KeyView| in_range(k, lo, hi) && !key_lt(k, sep) implies #[trigger] lookup(tr, n2, k, h)
        == lookup(t, n, k, h) by {
        lemma_route_split(keys, mid, k);
        let i = route(keys, k);
        lemma_route(keys, k);
        assert(rcs[i - mid - 1] == cs[i]);
        assert(n2[rid].keys == rk);
        assert(route(rk, k) == i - mid - 1);
        assert(lookup(tr, n2, k, h) == lookup(rcs[i - mid - 1], n2, k, hc));
        lemma_frame(cs[i], n, n2, child_lo(keys, lo, i), child_hi(keys, hi, i), hc);
        assert(lookup(cs[i], n2, k, hc) == lookup(cs[i], n, k, hc));
    }
    // Pages.
    assert forall|x: u64| #[trigger] has_id(tl, x, h) implies has_id(t, x, h) by {
        lemma_inner_ids(pid, lcs, h, x);
        if x != pid {
            let j = choose|j: int| 0 <= j < lcs.len() && has_id(lcs[j], x, hc);
            assert(lcs[j] == cs[j]);
            lemma_child_ids(pid, cs, j, x, h);
        }
    }
    assert forall|x: u64| #[trigger] has_id(tr, x, h) implies has_id(t, x, h) || x == rid by {
        lemma_inner_ids(rid, rcs, h, x);
        if x != rid {
            let j = choose|j: int| 0 <= j < rcs.len() && has_id(rcs[j], x, hc);
            assert(rcs[j] == cs[mid + 1 + j]);
            lemma_child_ids(pid, cs, mid + 1 + j, x, h);
        }
    }
    assert forall|x: u64| !(#[trigger] has_id(tl, x, h) && #[trigger] has_id(tr, x, h)) by {
        lemma_inner_ids(pid, lcs, h, x);
        lemma_inner_ids(rid, rcs, h, x);
        if has_id(tl, x, h) && has_id(tr, x, h) {
            if x == pid {
                if x != rid {
                    let j = choose|j: int| 0 <= j < rcs.len() && has_id(rcs[j], x, hc);
                    assert(rcs[j] == cs[mid + 1 + j]);
                }
            } else if x == rid {
                let j = choose|j: int| 0 <= j < lcs.len() && has_id(lcs[j], x, hc);
                assert(lcs[j] == cs[j]);
                lemma_child_ids(pid, cs, j, x, h);
            } else {
                let j = choose|j: int| 0 <= j < lcs.len() && has_id(lcs[j], x, hc);
                let j2 = choose|j2: int| 0 <= j2 < rcs.len() && has_id(rcs[j2], x, hc);
                assert(lcs[j] == cs[j]);
                assert(rcs[j2] == cs[mid + 1 + j2]);
            }
        }
    }
}
} // verus!
