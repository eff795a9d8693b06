//! Facts about rebuilding a subtree after a deletion: two neighbouring
//! children joined into one, and one child cut again into two.
use vstd::prelude::*;
use crate::key::{KeyView, key_lt, key_le, lemma_key_order};
use crate::node::NodeView;
use crate::shape::{
    Shape, wf_shape, has_id, lookup, leaf_get, route, in_range, ge_lo, le_hi, child_lo, child_hi,
    leaf_ok, inner_ok, sorted_le, same_on, child_ids, lemma_route, lemma_route_unique,
    lemma_route_in_child, lemma_key_index, lemma_frame, lemma_child_ids, lemma_has_own_id,
};
use crate::insert_proofs::{
    lemma_ids_known, lemma_inner_ids, lemma_sorted_insert, lemma_route_insert, leaf_with_keys,
    lemma_leaf_split, lemma_inner_split, inner_with,
};

verus! {

/// What two neighbouring children `j` and `j + 1` hold for `k`, routed by separator `j`.
pub open spec fn pair_get(
    cs: Seq<Shape>,
    keys: Seq<KeyView>,
    j: int,
    n: Map<u64, NodeView>,
    hc: nat,
    k: KeyView,
) -> Option<Seq<u8>> {
    if key_lt(k, keys[j]) {
        lookup(cs[j], n, k, hc)
    } else {
        lookup(cs[j + 1], n, k, hc)
    }
}

/// Routing once separator `j` is removed.
#[verifier::spinoff_prover]
pub proof fn lemma_route_remove(keys: Seq<KeyView>, j: int, k: KeyView)
    requires
        sorted_le(keys),
        0 <= j < keys.len(),
    ensures
        route(keys, k) <= j ==> route(keys.remove(j), k) == route(keys, k),
        route(keys, k) > j ==> route(keys.remove(j), k) == route(keys, k) - 1,
{
    lemma_key_order();
    lemma_route(keys, k);
    let i = route(keys, k);
    let k2 = keys.remove(j);
    if i <= j {
        assert forall|l: int| 0 <= l < i implies !key_lt(k, #[trigger] k2[l]) by {
            assert(k2[l] == keys[l]);
        }
        if i < k2.len() {
            if i < j {
                assert(k2[i] == keys[i]);
            } else {
                assert(k2[i] == keys[i + 1]);
                assert(key_le(keys[i], keys[i + 1]));
            }
        }
        lemma_route_unique(k2, k, i);
    } else {
        assert forall|l: int| 0 <= l < i - 1 implies !key_lt(k, #[trigger] k2[l]) by {
            if l < j {
                assert(k2[l] == keys[l]);
            } else {
                assert(k2[l] == keys[l + 1]);
            }
        }
        if i - 1 < k2.len() {
            assert(k2[i - 1] == keys[i]);
        }
        lemma_route_unique(k2, k, i - 1);
    }
}

/// Routing through separators `a`, then `s`, then `b`, where `a` lies at or
/// below `s` and `b` at or above it.
#[verifier::spinoff_prover]
pub proof fn lemma_route_concat(a: Seq<KeyView>, s: KeyView, b: Seq<KeyView>, k: KeyView)
    requires
        forall|i: int| 0 <= i < a.len() ==> key_le(#[trigger] a[i], s),
        forall|i: int| 0 <= i < b.len() ==> key_le(s, #[trigger] b[i]),
    ensures
        key_lt(k, s) ==> route(a.push(s) + b, k) == route(a, k),
        !key_lt(k, s) ==> route(a.push(s) + b, k) == a.len() + 1 + route(b, k),
{
    lemma_key_order();
    lemma_route(a, k);
    lemma_route(b, k);
    let m = a.push(s) + b;
    if key_lt(k, s) {
        let i = route(a, k);
        assert forall|l: int| 0 <= l < i implies !key_lt(k, #[trigger] m[l]) by {
            assert(m[l] == a[l]);
        }
        if i < a.len() {
            assert(m[i] == a[i]);
        } else {
            assert(m[i] == s);
        }
        lemma_route_unique(m, k, i);
    } else {
        let c = a.len() + 1 + route(b, k);
        assert forall|l: int| 0 <= l < c implies !key_lt(k, #[trigger] m[l]) by {
            if l < a.len() {
                assert(m[l] == a[l]);
                assert(key_le(a[l], s));
            } else if l == a.len() {
                assert(m[l] == s);
            } else {
                assert(m[l] == b[l - a.len() - 1]);
            }
        }
        if c < m.len() {
            assert(m[c] == b[route(b, k)]);
        }
        lemma_route_unique(m, k, c);
    }
}

/// Two neighbouring leaves joined into one.
#[verifier::spinoff_prover]
pub proof fn lemma_leaf_merge(
    c: NodeView,
    r: NodeView,
    lo: Option<KeyView>,
    s: KeyView,
    hi: Option<KeyView>,
)
    requires
        leaf_ok(c, lo, Some(s)),
        leaf_ok(r, Some(s), hi),
        ge_lo(s, lo),
        le_hi(s, hi),
    ensures
        leaf_ok(leaf_with_keys(c, c.keys + r.keys, c.values + r.values), lo, hi),
        forall|k: KeyView| #[trigger]
            leaf_get(leaf_with_keys(c, c.keys + r.keys, c.values + r.values), k) == if key_lt(k, s) {
                leaf_get(c, k)
            } else {
                leaf_get(r, k)
            },
{
    lemma_key_order();
    let ks = c.keys + r.keys;
    let m = leaf_with_keys(c, ks, c.values + r.values);
    let cl = c.keys.len() as int;
    assert forall|i: int| 0 <= i < ks.len() implies in_range(#[trigger] ks[i], lo, hi) by {
        if i < cl {
            assert(ks[i] == c.keys[i]);
            assert(in_range(c.keys[i], lo, Some(s)));
        } else {
            assert(ks[i] == r.keys[i - cl]);
            assert(in_range(r.keys[i - cl], Some(s), hi));
        }
    }
    assert forall|i: int, j: int| 0 <= i < j < ks.len() implies key_lt(#[trigger] ks[i], #[trigger] ks[j]) by {
        if j < cl {
            assert(ks[i] == c.keys[i] && ks[j] == c.keys[j]);
        } else if i >= cl {
            assert(ks[i] == r.keys[i - cl] && ks[j] == r.keys[j - cl]);
        } else {
            assert(ks[i] == c.keys[i] && ks[j] == r.keys[j - cl]);
            assert(in_range(c.keys[i], lo, Some(s)));
            assert(in_range(r.keys[j - cl], Some(s), hi));
        }
    }
    assert forall|k: KeyView| #[trigger] leaf_get(m, k) == if key_lt(k, s) {
        leaf_get(c, k)
    } else {
        leaf_get(r, k)
    } by {
        if ks.contains(k) {
            let i = choose|i: int| 0 <= i < ks.len() && ks[i] == k;
            lemma_key_index(ks, i);
            if i < cl {
                assert(c.keys[i] == k);
                assert(in_range(c.keys[i], lo, Some(s)));
                lemma_key_index(c.keys, i);
            } else {
                assert(r.keys[i - cl] == k);
                assert(in_range(r.keys[i - cl], Some(s), hi));
                lemma_key_index(r.keys, i - cl);
            }
        } else {
            if key_lt(k, s) && c.keys.contains(k) {
                let i = choose|i: int| 0 <= i < c.keys.len() && c.keys[i] == k;
                assert(ks[i] == k);
            }
            if !key_lt(k, s) && r.keys.contains(k) {
                let i = choose|i: int| 0 <= i < r.keys.len() && r.keys[i] == k;
                assert(ks[cl + i] == k);
            }
        }
    }
}

/// Two neighbouring internal nodes joined into one, the separator between
/// them moving down between their keys.
#[verifier::spinoff_prover]
pub proof fn lemma_inner_merge(
    cid: u64,
    ccs: Seq<Shape>,
    rid: u64,
    rcs: Seq<Shape>,
    n: Map<u64, NodeView>,
    lo: Option<KeyView>,
    s: KeyView,
    hi: Option<KeyView>,
    hc: nat,
)
    requires
        wf_shape(Shape::Inner(cid, ccs), n, lo, Some(s), hc),
        wf_shape(Shape::Inner(rid, rcs), n, Some(s), hi, hc),
        ge_lo(s, lo),
        le_hi(s, hi),
        forall|x: u64|
            !(#[trigger] has_id(Shape::Inner(cid, ccs), x, hc) && #[trigger] has_id(
                Shape::Inner(rid, rcs),
                x,
                hc,
            )),
    ensures
        ({
            let m = inner_with(n[cid], n[cid].keys.push(s) + n[rid].keys, n[cid].children + n[rid].children);
            let n2 = n.insert(cid, m);
            let mt = Shape::Inner(cid, ccs + rcs);
            &&& wf_shape(mt, n2, lo, hi, hc)
            &&& forall|k: KeyView|
                in_range(k, lo, hi) ==> #[trigger] lookup(mt, n2, k, hc) == if key_lt(k, s) {
                    lookup(Shape::Inner(cid, ccs), n, k, hc)
                } else {
                    lookup(Shape::Inner(rid, rcs), n, k, hc)
                }
            &&& forall|x: u64| #[trigger]
                has_id(mt, x, hc) ==> has_id(Shape::Inner(cid, ccs), x, hc) || (has_id(
                    Shape::Inner(rid, rcs),
                    x,
                    hc,
                ) && x != rid)
        }),
{
    lemma_key_order();
    let c = Shape::Inner(cid, ccs);
    let r = Shape::Inner(rid, rcs);
    assert(c->1 == ccs);
    assert(r->1 == rcs);
    let g = (hc - 1) as nat;
    let ck = n[cid].keys;
    let rk = n[rid].keys;
    let mk = ck.push(s) + rk;
    let m = inner_with(n[cid], mk, n[cid].children + n[rid].children);
    let n2 = n.insert(cid, m);
    let mcs = ccs + rcs;
    let mt = Shape::Inner(cid, mcs);
    assert(mt->1 == mcs);
    let cl = ccs.len() as int;
    lemma_ids_known(c, n, lo, Some(s), hc);
    lemma_ids_known(r, n, Some(s), hi, hc);
    lemma_has_own_id(c, hc);
    lemma_has_own_id(r, hc);
    assert(cid != rid);
    assert forall|j: int| 0 <= j < mcs.len() implies #[trigger] mcs[j] == if j < cl {
        ccs[j]
    } else {
        rcs[j - cl]
    } by {}
    // The children read the same nodes.
    assert forall|j: int| 0 <= j < mcs.len() implies same_on(#[trigger] mcs[j], g, n, n2) by {
        assert forall|x: u64| #[trigger] has_id(mcs[j], x, g) implies n2.contains_key(x) && n.contains_key(x)
            && n2[x] == n[x] by {
            if j < cl {
                lemma_child_ids(cid, ccs, j, x, hc);
                assert(!has_id(ccs[j], cid, g));
            } else {
                lemma_child_ids(rid, rcs, j - cl, x, hc);
                if x == cid {
                    assert(has_id(c, cid, hc));
                }
            }
        }
    }
    // Separators.
    assert forall|i: int| 0 <= i < ck.len() implies key_le(#[trigger] ck[i], s) by {
        assert(le_hi(ck[i], Some(s)));
    }
    assert forall|i: int| 0 <= i < rk.len() implies key_le(s, #[trigger] rk[i]) by {
        assert(ge_lo(rk[i], Some(s)));
    }
    assert forall|i: int, j: int| 0 <= i < j < mk.len() implies key_le(#[trigger] mk[i], #[trigger] mk[j]) by {
        let ckl = ck.len() as int;
        if j < ckl {
            assert(mk[i] == ck[i] && mk[j] == ck[j]);
        } else if j == ckl {
            assert(mk[i] == ck[i] && mk[j] == s);
        } else if i < ckl {
            assert(mk[i] == ck[i] && mk[j] == rk[j - ckl - 1]);
            assert(key_le(ck[i], s));
            assert(key_le(s, rk[j - ckl - 1]));
        } else if i == ckl {
            assert(mk[j] == rk[j - ckl - 1]);
        } else {
            assert(mk[i] == rk[i - ckl - 1] && mk[j] == rk[j - ckl - 1]);
        }
    }
    assert forall|i: int| 0 <= i < mk.len() implies ge_lo(#[trigger] mk[i], lo) && le_hi(mk[i], hi) by {
        let ckl = ck.len() as int;
        if i < ckl {
            assert(mk[i] == ck[i]);
            assert(ge_lo(ck[i], lo));
            assert(le_hi(ck[i], Some(s)));
        } else if i == ckl {
            assert(mk[i] == s);
        } else {
            assert(mk[i] == rk[i - ckl - 1]);
            assert(le_hi(rk[i - ckl - 1], hi));
            assert(ge_lo(rk[i - ckl - 1], Some(s)));
        }
    }
    assert(m.children =~= child_ids(mcs)) by {
        assert forall|j: int| 0 <= j < mcs.len() implies #[trigger] child_ids(mcs)[j] == m.children[j] by {
            assert(n[cid].children == child_ids(ccs));
            assert(n[rid].children == child_ids(rcs));
        }
    }
    // Bounds of each child.
    assert forall|j: int| 0 <= j < mcs.len() implies wf_shape(
        #[trigger] mcs[j],
        n2,
        child_lo(mk, lo, j),
        child_hi(mk, hi, j),
        g,
    ) by {
        let ckl = ck.len() as int;
        if j < cl {
            if j > 0 {
                assert(mk[j - 1] == ck[j - 1]);
            }
            if j < ckl {
                assert(mk[j] == ck[j]);
            } else {
                assert(mk[j] == s);
            }
            assert(child_lo(mk, lo, j) == child_lo(ck, lo, j));
            assert(child_hi(mk, hi, j) == child_hi(ck, Some(s), j));
            assert(mcs[j] == ccs[j]);
            assert(same_on(mcs[j], g, n, n2));
            lemma_frame(ccs[j], n, n2, child_lo(ck, lo, j), child_hi(ck, Some(s), j), g);
        } else {
            let jj = j - cl;
            if jj == 0 {
                assert(mk[j - 1] == s);
            } else {
                assert(mk[j - 1] == rk[jj - 1]);
            }
            if jj < rk.len() {
                assert(mk[j] == rk[jj]);
            }
            assert(child_lo(mk, lo, j) == child_lo(rk, Some(s), jj));
            assert(child_hi(mk, hi, j) == child_hi(rk, hi, jj));
            assert(mcs[j] == rcs[jj]);
            assert(same_on(mcs[j], g, n, n2));
            lemma_frame(rcs[jj], n, n2, child_lo(rk, Some(s), jj), child_hi(rk, hi, jj), g);
        }
    }
    assert forall|j: int| 0 <= j < mcs.len() implies !has_id(#[trigger] mcs[j], cid, g) by {
        if j >= cl {
            if has_id(rcs[j - cl], cid, g) {
                lemma_child_ids(rid, rcs, j - cl, cid, hc);
            }
        }
    }
    assert forall|i: int, j: int, x: u64|
        0 <= i < mcs.len() && 0 <= j < mcs.len() && i != j && #[trigger] has_id(mcs[i], x, g)
            implies !#[trigger] has_id(mcs[j], x, g) by {
        if i < cl && j >= cl {
            lemma_child_ids(cid, ccs, i, x, hc);
            if has_id(mcs[j], x, g) {
                lemma_child_ids(rid, rcs, j - cl, x, hc);
            }
        } else if i >= cl && j < cl {
            lemma_child_ids(rid, rcs, i - cl, x, hc);
            if has_id(mcs[j], x, g) {
                lemma_child_ids(cid, ccs, j, x, hc);
            }
        }
    }
    assert(n2[cid] == m);
    assert(wf_shape(mt, n2, lo, hi, hc));
    // Lookups.
    assert forall|k: KeyView| in_range(k, lo, hi) implies #[trigger] lookup(mt, n2, k, hc) == if key_lt(k, s) {
        lookup(c, n, k, hc)
    } else {
        lookup(r, n, k, hc)
    } by {
        lemma_route_concat(ck, s, rk, k);
        lemma_route(ck, k);
        lemma_route(rk, k);
        if key_lt(k, s) {
            let i = route(ck, k);
            assert(mcs[i] == ccs[i]);
            assert(same_on(mcs[i], g, n, n2));
            lemma_frame(ccs[i], n, n2, child_lo(ck, lo, i), child_hi(ck, Some(s), i), g);
            assert(lookup(ccs[i], n2, k, g) == lookup(ccs[i], n, k, g));
        } else {
            let i = route(rk, k);
            assert(mcs[cl + i] == rcs[i]);
            assert(same_on(mcs[cl + i], g, n, n2));
            lemma_frame(rcs[i], n, n2, child_lo(rk, Some(s), i), child_hi(rk, hi, i), g);
            assert(lookup(rcs[i], n2, k, g) == lookup(rcs[i], n, k, g));
        }
    }
    assert forall|x: u64| #[trigger] has_id(mt, x, hc) implies has_id(c, x, hc) || (has_id(r, x, hc) && x != rid) by {
        lemma_inner_ids(cid, mcs, hc, x);
        if x != cid {
            let j = choose|j: int| 0 <= j < mcs.len() && has_id(mcs[j], x, g);
            if j < cl {
                lemma_child_ids(cid, ccs, j, x, hc);
            } else {
                lemma_child_ids(rid, rcs, j - cl, x, hc);
                assert(!has_id(rcs[j - cl], rid, g));
            }
        }
    }
}


/// Two neighbouring children `j` and `j + 1` joined into one subtree `m`;
/// the parent loses separator `j`.
#[verifier::spinoff_prover]
#[verifier::rlimit(60)]
pub proof fn lemma_parent_merge(
    pid: u64,
    cs: Seq<Shape>,
    n0: Map<u64, NodeView>,
    n1: Map<u64, NodeView>,
    lo: Option<KeyView>,
    hi: Option<KeyView>,
    h: nat,
    j: int,
    m: Shape,
)
    requires
        wf_shape(Shape::Inner(pid, cs), n0, lo, hi, h),
        0 <= j,
        j + 1 < cs.len(),
        m.id() == cs[j].id(),
        forall|x: u64| #[trigger]
            has_id(m, x, (h - 1) as nat) ==> has_id(cs[j], x, (h - 1) as nat) || has_id(
                cs[j + 1],
                x,
                (h - 1) as nat,
            ),
        n1.contains_key(pid),
        n1[pid] == (NodeView {
            keys: n0[pid].keys.remove(j),
            children: n0[pid].children.remove(j + 1),
            ..n0[pid]
        }),
        forall|x: u64| #[trigger]
            n0.contains_key(x) && x != pid && !has_id(cs[j], x, (h - 1) as nat) && !has_id(
                cs[j + 1],
                x,
                (h - 1) as nat,
            ) ==> n1.contains_key(x) && n1[x] == n0[x],
        wf_shape(m, n1, child_lo(n0[pid].keys, lo, j), child_hi(n0[pid].keys, hi, j + 1), (h - 1) as nat),
        forall|k: KeyView|
            in_range(k, child_lo(n0[pid].keys, lo, j), child_hi(n0[pid].keys, hi, j + 1)) ==> #[trigger] lookup(
                m,
                n1,
                k,
                (h - 1) as nat,
            ) == pair_get(cs, n0[pid].keys, j, n0, (h - 1) as nat, k),
    ensures
        wf_shape(Shape::Inner(pid, cs.update(j, m).remove(j + 1)), n1, lo, hi, h),
        forall|k: KeyView|
            in_range(k, lo, hi) ==> #[trigger] lookup(Shape::Inner(pid, cs.update(j, m).remove(j + 1)), n1, k, h)
                == lookup(Shape::Inner(pid, cs), n0, k, h),
        forall|x: u64| #[trigger]
            has_id(Shape::Inner(pid, cs.update(j, m).remove(j + 1)), x, h) ==> has_id(
                Shape::Inner(pid, cs),
                x,
                h,
            ),
{
    lemma_key_order();
    let t = Shape::Inner(pid, cs);
    assert(t->1 == cs);
    let hc = (h - 1) as nat;
    let keys = n0[pid].keys;
    let keys2 = keys.remove(j);
    let cs2 = cs.update(j, m).remove(j + 1);
    let t2 = Shape::Inner(pid, cs2);
    assert(t2->1 == cs2);
    lemma_ids_known(t, n0, lo, hi, h);
    lemma_has_own_id(t, h);
    assert forall|l: int| 0 <= l < cs2.len() implies #[trigger] cs2[l] == if l < j {
        cs[l]
    } else if l == j {
        m
    } else {
        cs[l + 1]
    } by {}
    assert(!has_id(m, pid, hc)) by {
        if has_id(m, pid, hc) {
            assert(has_id(cs[j], pid, hc) || has_id(cs[j + 1], pid, hc));
        }
    }
    // Untouched children read the same nodes.
    assert forall|i: int| 0 <= i < cs.len() && i != j && i != j + 1 implies same_on(cs[i], hc, n0, n1) by {
        assert forall|x: u64| #[trigger] has_id(cs[i], x, hc) implies n1.contains_key(x) && n0.contains_key(x)
            && n1[x] == n0[x] by {
            lemma_child_ids(pid, cs, i, x, h);
            assert(!has_id(cs[j], x, hc));
            assert(!has_id(cs[j + 1], x, hc));
            assert(!has_id(cs[i], pid, hc));
            assert(n0.contains_key(x));
        }
    }
    // Separators.
    assert forall|a: int, b: int| 0 <= a < b < keys2.len() implies key_le(#[trigger] keys2[a], #[trigger] keys2[b]) by {
        let oa = if a < j { a } else { a + 1 };
        let ob = if b < j { b } else { b + 1 };
        assert(keys2[a] == keys[oa] && keys2[b] == keys[ob]);
    }
    assert forall|a: int| 0 <= a < keys2.len() implies ge_lo(#[trigger] keys2[a], lo) && le_hi(keys2[a], hi) by {
        let oa = if a < j { a } else { a + 1 };
        assert(keys2[a] == keys[oa]);
    }
    assert(n1[pid].children =~= child_ids(cs2)) by {
        assert(n0[pid].children == child_ids(cs));
        assert forall|l: int| 0 <= l < cs2.len() implies #[trigger] child_ids(cs2)[l] == n1[pid].children[l] by {
            if l < j {
                assert(n1[pid].children[l] == n0[pid].children[l]);
            } else if l == j {
                assert(n1[pid].children[l] == n0[pid].children[l]);
            } else {
                assert(n1[pid].children[l] == n0[pid].children[l + 1]);
            }
        }
    }
    assert forall|l: int| 0 <= l < cs2.len() implies wf_shape(
        #[trigger] cs2[l],
        n1,
        child_lo(keys2, lo, l),
        child_hi(keys2, hi, l),
        hc,
    ) by {
        if l < j {
            if l > 0 {
                assert(keys2[l - 1] == keys[l - 1]);
            }
            assert(keys2[l] == keys[l]);
            lemma_frame(cs[l], n0, n1, child_lo(keys, lo, l), child_hi(keys, hi, l), hc);
        } else if l == j {
            if l > 0 {
                assert(keys2[l - 1] == keys[l - 1]);
            }
            if l < keys2.len() {
                assert(keys2[l] == keys[l + 1]);
            }
        } else {
            assert(keys2[l - 1] == keys[l]);
            if l < keys2.len() {
                assert(keys2[l] == keys[l + 1]);
            }
            lemma_frame(cs[l + 1], n0, n1, child_lo(keys, lo, l + 1), child_hi(keys, hi, l + 1), hc);
        }
    }
    assert forall|l: int| 0 <= l < cs2.len() implies !has_id(#[trigger] cs2[l], pid, hc) by {
        if l > j {
            assert(!has_id(cs[l + 1], pid, hc));
        }
    }
    assert forall|a: int, b: int, x: u64|
        0 <= a < cs2.len() && 0 <= b < cs2.len() && a != b && #[trigger] has_id(cs2[a], x, hc)
            implies !#[trigger] has_id(cs2[b], x, hc) by {
        let oa = if a <= j { a } else { a + 1 };
        let ob = if b <= j { b } else { b + 1 };
        if a == j {
            if has_id(cs2[b], x, hc) {
                assert(has_id(cs[ob], x, hc));
                assert(has_id(cs[j], x, hc) || has_id(cs[j + 1], x, hc));
            }
        } else if b == j {
            assert(has_id(cs[oa], x, hc));
            if has_id(m, x, hc) {
                assert(has_id(cs[j], x, hc) || has_id(cs[j + 1], x, hc));
            }
        } else {
            assert(cs2[a] == cs[oa] && cs2[b] == cs[ob]);
        }
    }
    assert(wf_shape(t2, n1, lo, hi, h));
    // Lookups.
    assert forall|k: KeyView| in_range(k, lo, hi) implies #[trigger] lookup(t2, n1, k, h) == lookup(t, n0, k, h) by {
        let i = route(keys, k);
        lemma_route(keys, k);
        lemma_route_in_child(keys, k, lo, hi);
        lemma_route_remove(keys, j, k);
        if i < j {
            lemma_frame(cs[i], n0, n1, child_lo(keys, lo, i), child_hi(keys, hi, i), hc);
            assert(lookup(cs[i], n1, k, hc) == lookup(cs[i], n0, k, hc));
        } else if i > j + 1 {
            lemma_frame(cs[i], n0, n1, child_lo(keys, lo, i), child_hi(keys, hi, i), hc);
            assert(cs2[i - 1] == cs[i]);
            assert(lookup(cs[i], n1, k, hc) == lookup(cs[i], n0, k, hc));
        } else {
            if i == j {
                if j + 1 < keys.len() {
                    assert(key_le(keys[j], keys[j + 1]));
                }
                assert(in_range(k, child_lo(keys, lo, j), child_hi(keys, hi, j + 1)));
            } else {
                if j > 0 {
                    assert(key_le(keys[j - 1], keys[j]));
                }
                assert(!key_lt(k, keys[j]));
                assert(in_range(k, child_lo(keys, lo, j), child_hi(keys, hi, j + 1)));
            }
            assert(lookup(m, n1, k, hc) == pair_get(cs, keys, j, n0, hc, k));
        }
    }
    assert forall|x: u64| #[trigger] has_id(t2, x, h) implies has_id(t, x, h) by {
        lemma_inner_ids(pid, cs2, h, x);
        if x != pid {
            let l = choose|l: int| 0 <= l < cs2.len() && has_id(cs2[l], x, hc);
            if l < j {
                lemma_child_ids(pid, cs, l, x, h);
            } else if l == j {
                if has_id(cs[j], x, hc) {
                    lemma_child_ids(pid, cs, j, x, h);
                } else {
                    lemma_child_ids(pid, cs, j + 1, x, h);
                }
            } else {
                lemma_child_ids(pid, cs, l + 1, x, h);
            }
        }
    }
}

/// A child cut in two around `sep`, the right part on page `cr.id()`; the
/// parent gains `sep` and the new child.
#[verifier::spinoff_prover]
#[verifier::rlimit(60)]
pub proof fn lemma_child_resplit(
    pid: u64,
    cs: Seq<Shape>,
    n0: Map<u64, NodeView>,
    n1: Map<u64, NodeView>,
    lo: Option<KeyView>,
    hi: Option<KeyView>,
    h: nat,
    pos: int,
    c2: Shape,
    cr: Shape,
    sep: KeyView,
)
    requires
        wf_shape(Shape::Inner(pid, cs), n0, lo, hi, h),
        0 <= pos < cs.len(),
        !has_id(Shape::Inner(pid, cs), cr.id(), h),
        forall|x: u64|
            n0.contains_key(x) && !#[trigger] has_id(cs[pos], x, (h - 1) as nat) && x != cr.id() ==> n1.contains_key(
                x,
            ) && n1[x] == n0[x],
        c2.id() == cs[pos].id(),
        forall|x: u64| #[trigger] has_id(c2, x, (h - 1) as nat) ==> has_id(cs[pos], x, (h - 1) as nat) || x == cr.id(),
        forall|x: u64| #[trigger] has_id(cr, x, (h - 1) as nat) ==> has_id(cs[pos], x, (h - 1) as nat) || x == cr.id(),
        forall|x: u64| !(#[trigger] has_id(c2, x, (h - 1) as nat) && #[trigger] has_id(cr, x, (h - 1) as nat)),
        ge_lo(sep, child_lo(n0[pid].keys, lo, pos)),
        le_hi(sep, child_hi(n0[pid].keys, hi, pos)),
        wf_shape(c2, n1, child_lo(n0[pid].keys, lo, pos), Some(sep), (h - 1) as nat),
        wf_shape(cr, n1, Some(sep), child_hi(n0[pid].keys, hi, pos), (h - 1) as nat),
        forall|k: KeyView|
            in_range(k, child_lo(n0[pid].keys, lo, pos), child_hi(n0[pid].keys, hi, pos)) && key_lt(k, sep)
                ==> #[trigger] lookup(c2, n1, k, (h - 1) as nat) == lookup(cs[pos], n0, k, (h - 1) as nat),
        forall|k: KeyView|
            in_range(k, child_lo(n0[pid].keys, lo, pos), child_hi(n0[pid].keys, hi, pos)) && !key_lt(k, sep)
                ==> #[trigger] lookup(cr, n1, k, (h - 1) as nat) == lookup(cs[pos], n0, k, (h - 1) as nat),
    ensures
        ({
            let np = NodeView {
                keys: n0[pid].keys.insert(pos, sep),
                children: n0[pid].children.insert(pos + 1, cr.id()),
                ..n0[pid]
            };
            let n2 = n1.insert(pid, np);
            let t2 = Shape::Inner(pid, cs.update(pos, c2).insert(pos + 1, cr));
            &&& wf_shape(t2, n2, lo, hi, h)
            &&& forall|k: KeyView|
                in_range(k, lo, hi) ==> #[trigger] lookup(t2, n2, k, h) == lookup(Shape::Inner(pid, cs), n0, k, h)
            &&& forall|x: u64| #[trigger] has_id(t2, x, h) ==> has_id(Shape::Inner(pid, cs), x, h) || x == cr.id()
        }),
{
    lemma_key_order();
    let t = Shape::Inner(pid, cs);
    assert(t->1 == cs);
    let hc = (h - 1) as nat;
    let keys = n0[pid].keys;
    let np = NodeView {
        keys: keys.insert(pos, sep),
        children: n0[pid].children.insert(pos + 1, cr.id()),
        ..n0[pid]
    };
    let n2 = n1.insert(pid, np);
    let cs2 = cs.update(pos, c2).insert(pos + 1, cr);
    let t2 = Shape::Inner(pid, cs2);
    assert(t2->1 == cs2);
    let keys2 = keys.insert(pos, sep);
    lemma_ids_known(t, n0, lo, hi, h);
    lemma_has_own_id(t, h);
    // Where each new child came from.
    assert forall|j: int| 0 <= j < cs2.len() implies #[trigger] cs2[j] == if j < pos {
        cs[j]
    } else if j == pos {
        c2
    } else if j == pos + 1 {
        cr
    } else {
        cs[j - 1]
    } by {}
    // The parent's own page is in no child.
    assert(!has_id(cs[pos], pid, hc));
    assert(!has_id(c2, pid, hc)) by {
        if has_id(c2, pid, hc) {
            assert(has_id(cs[pos], pid, hc) || pid == cr.id());
        }
    }
    assert(!has_id(cr, pid, hc)) by {
        if has_id(cr, pid, hc) {
            assert(has_id(cs[pos], pid, hc) || pid == cr.id());
        }
    }
    // The rebuilt children read the same nodes once the parent is rewritten.
    lemma_ids_known(c2, n1, child_lo(keys, lo, pos), Some(sep), hc);
    lemma_ids_known(cr, n1, Some(sep), child_hi(keys, hi, pos), hc);
    assert(same_on(c2, hc, n1, n2));
    assert(same_on(cr, hc, n1, n2));
    lemma_frame(c2, n1, n2, child_lo(keys, lo, pos), Some(sep), hc);
    lemma_frame(cr, n1, n2, Some(sep), child_hi(keys, hi, pos), hc);
    // The other children read the same nodes as before.
    assert forall|i: int| 0 <= i < cs.len() && i != pos implies same_on(cs[i], hc, n0, n2) by {
        assert forall|x: u64| #[trigger] has_id(cs[i], x, hc) implies n2.contains_key(x) && n0.contains_key(x)
            && n2[x] == n0[x] by {
            lemma_child_ids(pid, cs, i, x, h);
            assert(!has_id(cs[pos], x, hc));
            assert(!has_id(cs[i], pid, hc));
        }
    }
    // Separators.
    if pos > 0 {
        assert(key_le(keys[pos - 1], sep));
        assert(ge_lo(keys[pos - 1], lo));
    }
    if pos < keys.len() {
        assert(key_le(sep, keys[pos]));
        assert(le_hi(keys[pos], hi));
    }
    lemma_sorted_insert(keys, pos, sep);
    assert(ge_lo(sep, lo) && le_hi(sep, hi));
    assert forall|i: int| 0 <= i < keys2.len() implies ge_lo(#[trigger] keys2[i], lo) && le_hi(keys2[i], hi) by {
        if i < pos {
            assert(keys2[i] == keys[i]);
        } else if i > pos {
            assert(keys2[i] == keys[i - 1]);
        }
    }
    assert(np.children =~= child_ids(cs2)) by {
        assert forall|j: int| 0 <= j < cs2.len() implies #[trigger] child_ids(cs2)[j] == np.children[j] by {
            assert(n0[pid].children == child_ids(cs));
            if j < pos {
                assert(np.children[j] == n0[pid].children[j]);
            } else if j == pos {
                assert(np.children[j] == n0[pid].children[j]);
            } else if j > pos + 1 {
                assert(np.children[j] == n0[pid].children[j - 1]);
            }
        }
    }
    assert(inner_ok(np, cs2, lo, hi));
    // Each child is well formed within its new bounds.
    assert forall|j: int| 0 <= j < cs2.len() implies wf_shape(
        #[trigger] cs2[j],
        n2,
        child_lo(keys2, lo, j),
        child_hi(keys2, hi, j),
        hc,
    ) by {
        if j < pos {
            assert(child_lo(keys2, lo, j) == child_lo(keys, lo, j));
            assert(child_hi(keys2, hi, j) == child_hi(keys, hi, j));
            lemma_frame(cs[j], n0, n2, child_lo(keys, lo, j), child_hi(keys, hi, j), hc);
        } else if j == pos {
            assert(child_lo(keys2, lo, j) == child_lo(keys, lo, j));
            assert(child_hi(keys2, hi, j) == Some(sep));
        } else if j == pos + 1 {
            assert(child_lo(keys2, lo, j) == Some(sep));
            assert(child_hi(keys2, hi, j) == child_hi(keys, hi, pos));
        } else {
            assert(child_lo(keys2, lo, j) == child_lo(keys, lo, j - 1));
            assert(child_hi(keys2, hi, j) == child_hi(keys, hi, j - 1));
            lemma_frame(cs[j - 1], n0, n2, child_lo(keys, lo, j - 1), child_hi(keys, hi, j - 1), hc);
        }
    }
    // No child holds the parent's page, and no two children share a page.
    assert forall|j: int| 0 <= j < cs2.len() implies !has_id(#[trigger] cs2[j], pid, hc) by {
        if j < pos {
        } else if j > pos + 1 {
            assert(!has_id(cs[j - 1], pid, hc));
        }
    }
    assert forall|i: int, j: int, x: u64|
        0 <= i < cs2.len() && 0 <= j < cs2.len() && i != j && #[trigger] has_id(cs2[i], x, hc)
            implies !#[trigger] has_id(cs2[j], x, hc) by {
        let oi = if i <= pos { i } else { i - 1 };
        let oj = if j <= pos { j } else { j - 1 };
        if (i == pos || i == pos + 1) && (j == pos || j == pos + 1) {
        } else if i == pos || i == pos + 1 {
            if has_id(cs2[j], x, hc) {
                lemma_child_ids(pid, cs, oj, x, h);
                assert(n0.contains_key(x));
                assert(has_id(cs[pos], x, hc));
                assert(!has_id(cs[oj], x, hc));
            }
        } else if j == pos || j == pos + 1 {
            lemma_child_ids(pid, cs, oi, x, h);
            assert(n0.contains_key(x));
            if has_id(cs2[j], x, hc) {
                assert(has_id(cs[pos], x, hc));
                assert(!has_id(cs[oi], x, hc));
            }
        } else {
            assert(cs2[i] == cs[oi] && cs2[j] == cs[oj]);
            assert(oi != oj);
        }
    }
    assert(n2[pid] == np);
    assert(wf_shape(t2, n2, lo, hi, h));
    // Routing through the new separator.
    assert forall|k: KeyView| in_range(k, lo, hi) implies #[trigger] lookup(t2, n2, k, h) == lookup(t, n0, k, h) by {
        let i = route(keys, k);
        lemma_route(keys, k);
        lemma_route_in_child(keys, k, lo, hi);
        lemma_route_insert(keys, sep, pos, k);
        let r = route(keys2, k);
        if i < pos {
            lemma_frame(cs[i], n0, n2, child_lo(keys, lo, i), child_hi(keys, hi, i), hc);
            assert(lookup(cs[i], n2, k, hc) == lookup(cs[i], n0, k, hc));
        } else if i > pos {
            lemma_frame(cs[i], n0, n2, child_lo(keys, lo, i), child_hi(keys, hi, i), hc);
            assert(cs2[i + 1] == cs[i]);
            assert(lookup(cs[i], n2, k, hc) == lookup(cs[i], n0, k, hc));
        } else if key_lt(k, sep) {
            assert(lookup(c2, n2, k, hc) == lookup(c2, n1, k, hc));
        } else {
            assert(lookup(cr, n2, k, hc) == lookup(cr, n1, k, hc));
        }
    }
    assert forall|x: u64| #[trigger] has_id(t2, x, h) implies has_id(t, x, h) || x == cr.id() by {
        lemma_inner_ids(pid, cs2, h, x);
        if x != pid {
            let j = choose|j: int| 0 <= j < cs2.len() && has_id(cs2[j], x, hc);
            if j == pos || j == pos + 1 {
                if has_id(cs[pos], x, hc) {
                    lemma_child_ids(pid, cs, pos, x, h);
                }
            } else if j < pos {
                lemma_child_ids(pid, cs, j, x, h);
            } else {
                lemma_child_ids(pid, cs, j - 1, x, h);
            }
        }
    }
}


/// What rebuilding subtree `t` into `t2` after a rebalance leaves behind:
/// the same pairs, no page from outside, and pages outside untouched.
pub open spec fn rebalance_done(
    n0: Map<u64, NodeView>,
    n1: Map<u64, NodeView>,
    t: Shape,
    lo: Option<KeyView>,
    hi: Option<KeyView>,
    h: nat,
    t2: Shape,
) -> bool {
    &&& t2.id() == t.id()
    &&& wf_shape(t2, n1, lo, hi, h)
    &&& forall|k: KeyView| in_range(k, lo, hi) ==> #[trigger] lookup(t2, n1, k, h) == lookup(t, n0, k, h)
    &&& forall|x: u64| #[trigger] has_id(t2, x, h) ==> has_id(t, x, h)
    &&& forall|x: u64|
        n0.contains_key(x) && !#[trigger] has_id(t, x, h) ==> n1.contains_key(x) && n1[x] == n0[x]
}

/// Facts about two neighbouring children `j` and `j + 1` of a well-formed node.
#[verifier::spinoff_prover]
pub proof fn lemma_pair_facts(
    pid: u64,
    cs: Seq<Shape>,
    n0: Map<u64, NodeView>,
    lo: Option<KeyView>,
    hi: Option<KeyView>,
    h: nat,
    j: int,
)
    requires
        wf_shape(Shape::Inner(pid, cs), n0, lo, hi, h),
        0 <= j,
        j + 1 < cs.len(),
    ensures
        ({
            let keys = n0[pid].keys;
            let hc = (h - 1) as nat;
            let s = keys[j];
            let lo_j = child_lo(keys, lo, j);
            let hi1 = child_hi(keys, hi, j + 1);
            &&& h > 0
            &&& child_hi(keys, hi, j) == Some(s)
            &&& child_lo(keys, lo, j + 1) == Some(s)
            &&& ge_lo(s, lo_j)
            &&& le_hi(s, hi1)
            &&& wf_shape(cs[j], n0, lo_j, Some(s), hc)
            &&& wf_shape(cs[j + 1], n0, Some(s), hi1, hc)
            &&& n0[pid].children[j] == cs[j].id()
            &&& n0[pid].children[j + 1] == cs[j + 1].id()
            &&& cs[j].id() != cs[j + 1].id()
            &&& cs[j].id() != pid
            &&& cs[j + 1].id() != pid
            &&& forall|x: u64| !(#[trigger] has_id(cs[j], x, hc) && #[trigger] has_id(cs[j + 1], x, hc))
            &&& forall|x: u64| #[trigger] has_id(cs[j], x, hc) ==> has_id(Shape::Inner(pid, cs), x, h)
            &&& forall|x: u64| #[trigger] has_id(cs[j + 1], x, hc) ==> has_id(Shape::Inner(pid, cs), x, h)
            &&& forall|x: u64| #[trigger] has_id(Shape::Inner(pid, cs), x, h) ==> n0.contains_key(x)
            &&& has_id(Shape::Inner(pid, cs), pid, h)
            &&& hc == 0 ==> cs[j] == Shape::Leaf(cs[j].id()) && cs[j + 1] == Shape::Leaf(cs[j + 1].id())
            &&& hc > 0 ==> cs[j] is Inner && cs[j + 1] is Inner
        }),
{
    lemma_key_order();
    let t = Shape::Inner(pid, cs);
    assert(t->1 == cs);
    let keys = n0[pid].keys;
    let hc = (h - 1) as nat;
    lemma_ids_known(t, n0, lo, hi, h);
    lemma_has_own_id(t, h);
    lemma_has_own_id(cs[j], hc);
    lemma_has_own_id(cs[j + 1], hc);
    if j > 0 {
        assert(key_le(keys[j - 1], keys[j]));
    }
    if j + 1 < keys.len() {
        assert(key_le(keys[j], keys[j + 1]));
    }
    assert(child_ids(cs)[j] == cs[j].id());
    assert(child_ids(cs)[j + 1] == cs[j + 1].id());
    assert forall|x: u64| #[trigger] has_id(cs[j], x, hc) implies has_id(t, x, h) by {
        lemma_child_ids(pid, cs, j, x, h);
    }
    assert forall|x: u64| #[trigger] has_id(cs[j + 1], x, hc) implies has_id(t, x, h) by {
        lemma_child_ids(pid, cs, j + 1, x, h);
    }
    assert(forall|x: u64| !(#[trigger] has_id(cs[j], x, hc) && #[trigger] has_id(cs[j + 1], x, hc)));
    assert(cs[j].id() != cs[j + 1].id());
    lemma_leaf_iff_height(cs[j], n0, child_lo(keys, lo, j), child_hi(keys, hi, j), hc);
    lemma_leaf_iff_height(cs[j + 1], n0, child_lo(keys, lo, j + 1), child_hi(keys, hi, j + 1), hc);
}

/// A well-formed subtree is a single leaf exactly when its height is 0.
pub proof fn lemma_leaf_iff_height(
    t: Shape,
    n: Map<u64, NodeView>,
    lo: Option<KeyView>,
    hi: Option<KeyView>,
    h: nat,
)
    requires
        wf_shape(t, n, lo, hi, h),
    ensures
        h == 0 ==> t == Shape::Leaf(t.id()),
        h > 0 ==> t is Inner,
        n.contains_key(t.id()),
        n[t.id()].is_leaf == (h == 0),
{
    match t {
        Shape::Leaf(id) => {},
        Shape::Inner(id, cc) => {},
    }
}

/// Borrowing the first pair of the right neighbour leaf into leaf `j`.
#[verifier::spinoff_prover]
#[verifier::rlimit(80)]
pub proof fn lemma_borrow_right_leaf(
    pid: u64,
    cs: Seq<Shape>,
    n0: Map<u64, NodeView>,
    lo: Option<KeyView>,
    hi: Option<KeyView>,
    h: nat,
    j: int,
)
    requires
        wf_shape(Shape::Inner(pid, cs), n0, lo, hi, h),
        0 <= j,
        j + 1 < cs.len(),
        h == 1,
        n0[cs[j + 1].id()].keys.len() >= 2,
    ensures
        ({
            let p = n0[pid];
            let cid = cs[j].id();
            let rid = cs[j + 1].id();
            let c = n0[cid];
            let r = n0[rid];
            let c2 = NodeView { keys: c.keys.push(r.keys[0]), values: c.values.push(r.values[0]), ..c };
            let r2 = NodeView { keys: r.keys.drop_first(), values: r.values.drop_first(), ..r };
            let p2 = NodeView { keys: p.keys.update(j, r.keys[1]), ..p };
            rebalance_done(
                n0,
                n0.insert(pid, p2).insert(cid, c2).insert(rid, r2),
                Shape::Inner(pid, cs),
                lo,
                hi,
                h,
                Shape::Inner(pid, cs),
            )
        }),
{
    lemma_key_order();
    lemma_pair_facts(pid, cs, n0, lo, hi, h, j);
    let t = Shape::Inner(pid, cs);
    assert(t->1 == cs);
    let p = n0[pid];
    let keys = p.keys;
    let cid = cs[j].id();
    let rid = cs[j + 1].id();
    let c = n0[cid];
    let r = n0[rid];
    let s = keys[j];
    let lo_j = child_lo(keys, lo, j);
    let hi1 = child_hi(keys, hi, j + 1);
    assert(leaf_ok(c, lo_j, Some(s)));
    assert(leaf_ok(r, Some(s), hi1));
    lemma_leaf_merge(c, r, lo_j, s, hi1);
    let m = leaf_with_keys(c, c.keys + r.keys, c.values + r.values);
    let pm = NodeView { keys: keys.remove(j), children: p.children.remove(j + 1), ..p };
    let nm = n0.insert(cid, m).insert(pid, pm);
    assert forall|k: KeyView| in_range(k, lo_j, hi1) implies #[trigger] lookup(Shape::Leaf(cid), nm, k, 0)
        == pair_get(cs, keys, j, n0, 0, k) by {
        assert(leaf_get(m, k) == if key_lt(k, s) { leaf_get(c, k) } else { leaf_get(r, k) });
    }
    assert forall|x: u64| #[trigger] has_id(Shape::Leaf(cid), x, 0) implies has_id(cs[j], x, 0) || has_id(cs[j + 1], x, 0) by {}
    assert forall|x: u64| #[trigger] n0.contains_key(x) && x != pid && !has_id(cs[j], x, 0) && !has_id(cs[j + 1], x, 0)
        implies nm.contains_key(x) && nm[x] == n0[x] by {}
    lemma_parent_merge(pid, cs, n0, nm, lo, hi, h, j, Shape::Leaf(cid));
    let csm = cs.update(j, Shape::Leaf(cid)).remove(j + 1);
    let tm = Shape::Inner(pid, csm);
    assert(tm->1 == csm);
    // Cut the joined leaf after the borrowed pair.
    let mid = c.keys.len() + 1int;
    lemma_leaf_split(m, lo_j, hi1, mid);
    let sep2 = r.keys[1];
    assert(m.keys[mid] == sep2);
    let left = leaf_with_keys(m, m.keys.subrange(0, mid), m.values.subrange(0, mid));
    let right = leaf_with_keys(m, m.keys.subrange(mid, m.keys.len() as int), m.values.subrange(mid, m.keys.len() as int));
    let c2 = NodeView { keys: c.keys.push(r.keys[0]), values: c.values.push(r.values[0]), ..c };
    let r2 = NodeView { keys: r.keys.drop_first(), values: r.values.drop_first(), ..r };
    assert(c2.keys =~= left.keys);
    assert(c2.values =~= left.values);
    assert(c2 == left);
    assert(r2.keys =~= right.keys);
    assert(r2.values =~= right.values);
    assert(leaf_ok(r2, Some(sep2), hi1));
    assert forall|k: KeyView| #[trigger] leaf_get(r2, k) == leaf_get(right, k) by {}
    let n1 = nm.insert(cid, c2).insert(rid, r2);
    // The right page is not in the joined tree.
    assert(!has_id(tm, rid, h)) by {
        lemma_inner_ids(pid, csm, h, rid);
        if has_id(tm, rid, h) {
            let l = choose|l: int| 0 <= l < csm.len() && has_id(csm[l], rid, 0);
            if l > j {
                assert(csm[l] == cs[l + 1]);
                assert(!has_id(cs[l + 1], rid, 0));
            } else if l < j {
                assert(csm[l] == cs[l]);
            }
        }
    }
    assert forall|x: u64| #[trigger] nm.contains_key(x) && !has_id(csm[j], x, 0) && x != rid
        implies n1.contains_key(x) && n1[x] == nm[x] by {}
    let keys_m = nm[pid].keys;
    assert(child_lo(keys_m, lo, j) == lo_j) by {
        if j > 0 {
            assert(keys_m[j - 1] == keys[j - 1]);
        }
    }
    assert(child_hi(keys_m, hi, j) == hi1) by {
        if j < keys_m.len() {
            assert(keys_m[j] == keys[j + 1]);
        }
    }
    assert forall|k: KeyView| in_range(k, lo_j, hi1) && key_lt(k, sep2) implies #[trigger] lookup(Shape::Leaf(cid), n1, k, 0)
        == lookup(csm[j], nm, k, 0) by {}
    assert forall|k: KeyView| in_range(k, lo_j, hi1) && !key_lt(k, sep2) implies #[trigger] lookup(Shape::Leaf(rid), n1, k, 0)
        == lookup(csm[j], nm, k, 0) by {
        assert(leaf_get(r2, k) == leaf_get(right, k));
    }
    lemma_child_resplit(pid, csm, nm, n1, lo, hi, h, j, Shape::Leaf(cid), Shape::Leaf(rid), sep2);
    let cs2 = csm.update(j, Shape::Leaf(cid)).insert(j + 1, Shape::Leaf(rid));
    assert(cs2 =~= cs);
    let np = NodeView { keys: keys_m.insert(j, sep2), children: nm[pid].children.insert(j + 1, rid), ..nm[pid] };
    let p2 = NodeView { keys: p.keys.update(j, r.keys[1]), ..p };
    assert(np.keys =~= p2.keys);
    assert(np.children =~= p2.children);
    assert(np == p2);
    let nf = n0.insert(pid, p2).insert(cid, c2).insert(rid, r2);
    assert(n1.insert(pid, np) =~= nf);
}

/// The right page is not in the parent once the pair is joined on the left page.
proof fn lemma_joined_without(
    pid: u64,
    cs: Seq<Shape>,
    n0: Map<u64, NodeView>,
    lo: Option<KeyView>,
    hi: Option<KeyView>,
    h: nat,
    j: int,
    m: Shape,
)
    requires
        wf_shape(Shape::Inner(pid, cs), n0, lo, hi, h),
        0 <= j,
        j + 1 < cs.len(),
        forall|x: u64| #[trigger]
            has_id(m, x, (h - 1) as nat) ==> has_id(cs[j], x, (h - 1) as nat) || (has_id(
                cs[j + 1],
                x,
                (h - 1) as nat,
            ) && x != cs[j + 1].id()),
    ensures
        !has_id(Shape::Inner(pid, cs.update(j, m).remove(j + 1)), cs[j + 1].id(), h),
{
    lemma_pair_facts(pid, cs, n0, lo, hi, h, j);
    let hc = (h - 1) as nat;
    let rid = cs[j + 1].id();
    let csm = cs.update(j, m).remove(j + 1);
    lemma_has_own_id(cs[j + 1], hc);
    lemma_inner_ids(pid, csm, h, rid);
    let t = Shape::Inner(pid, cs);
    assert(t->1 == cs);
    if has_id(Shape::Inner(pid, csm), rid, h) {
        let l = choose|l: int| 0 <= l < csm.len() && has_id(csm[l], rid, hc);
        if l > j {
            assert(csm[l] == cs[l + 1]);
            assert(!has_id(cs[l + 1], rid, hc));
        } else if l < j {
            assert(csm[l] == cs[l]);
            assert(!has_id(cs[l], rid, hc));
        } else {
            assert(csm[l] == m);
        }
    }
}

/// Borrowing the last pair of the left neighbour leaf `j` into leaf `j + 1`.
#[verifier::spinoff_prover]
#[verifier::rlimit(80)]
pub proof fn lemma_borrow_left_leaf(
    pid: u64,
    cs: Seq<Shape>,
    n0: Map<u64, NodeView>,
    lo: Option<KeyView>,
    hi: Option<KeyView>,
    h: nat,
    j: int,
)
    requires
        wf_shape(Shape::Inner(pid, cs), n0, lo, hi, h),
        0 <= j,
        j + 1 < cs.len(),
        h == 1,
        n0[cs[j].id()].keys.len() >= 1,
    ensures
        ({
            let p = n0[pid];
            let lid = cs[j].id();
            let cid = cs[j + 1].id();
            let l = n0[lid];
            let c = n0[cid];
            let l2 = NodeView { keys: l.keys.drop_last(), values: l.values.drop_last(), ..l };
            let c2 = NodeView {
                keys: c.keys.insert(0, l.keys.last()),
                values: c.values.insert(0, l.values.last()),
                ..c
            };
            let p2 = NodeView { keys: p.keys.update(j, l.keys.last()), ..p };
            rebalance_done(
                n0,
                n0.insert(pid, p2).insert(cid, c2).insert(lid, l2),
                Shape::Inner(pid, cs),
                lo,
                hi,
                h,
                Shape::Inner(pid, cs),
            )
        }),
{
    lemma_key_order();
    lemma_pair_facts(pid, cs, n0, lo, hi, h, j);
    let t = Shape::Inner(pid, cs);
    assert(t->1 == cs);
    let p = n0[pid];
    let keys = p.keys;
    let lid = cs[j].id();
    let cid = cs[j + 1].id();
    let l = n0[lid];
    let c = n0[cid];
    let s = keys[j];
    let lo_j = child_lo(keys, lo, j);
    let hi1 = child_hi(keys, hi, j + 1);
    assert(leaf_ok(l, lo_j, Some(s)));
    assert(leaf_ok(c, Some(s), hi1));
    lemma_leaf_merge(l, c, lo_j, s, hi1);
    let m = leaf_with_keys(l, l.keys + c.keys, l.values + c.values);
    let pm = NodeView { keys: keys.remove(j), children: p.children.remove(j + 1), ..p };
    let nm = n0.insert(lid, m).insert(pid, pm);
    assert forall|k: KeyView| in_range(k, lo_j, hi1) implies #[trigger] lookup(Shape::Leaf(lid), nm, k, 0)
        == pair_get(cs, keys, j, n0, 0, k) by {
        assert(leaf_get(m, k) == if key_lt(k, s) { leaf_get(l, k) } else { leaf_get(c, k) });
    }
    assert forall|x: u64| #[trigger] has_id(Shape::Leaf(lid), x, 0) implies has_id(cs[j], x, 0) || has_id(cs[j + 1], x, 0) by {}
    assert forall|x: u64| #[trigger] n0.contains_key(x) && x != pid && !has_id(cs[j], x, 0) && !has_id(cs[j + 1], x, 0)
        implies nm.contains_key(x) && nm[x] == n0[x] by {}
    lemma_parent_merge(pid, cs, n0, nm, lo, hi, h, j, Shape::Leaf(lid));
    let csm = cs.update(j, Shape::Leaf(lid)).remove(j + 1);
    let tm = Shape::Inner(pid, csm);
    assert(tm->1 == csm);
    let mid = l.keys.len() - 1int;
    lemma_leaf_split(m, lo_j, hi1, mid);
    let sep2 = l.keys.last();
    assert(m.keys[mid] == sep2);
    let left = leaf_with_keys(m, m.keys.subrange(0, mid), m.values.subrange(0, mid));
    let right = leaf_with_keys(m, m.keys.subrange(mid, m.keys.len() as int), m.values.subrange(mid, m.keys.len() as int));
    let l2 = NodeView { keys: l.keys.drop_last(), values: l.values.drop_last(), ..l };
    let c2 = NodeView { keys: c.keys.insert(0, l.keys.last()), values: c.values.insert(0, l.values.last()), ..c };
    assert(l2.keys =~= left.keys);
    assert(l2.values =~= left.values);
    assert(l2 == left);
    assert(c2.keys =~= right.keys);
    assert(c2.values =~= right.values);
    assert(leaf_ok(c2, Some(sep2), hi1));
    assert forall|k: KeyView| #[trigger] leaf_get(c2, k) == leaf_get(right, k) by {}
    let n1 = nm.insert(lid, l2).insert(cid, c2);
    assert forall|x: u64| #[trigger] has_id(Shape::Leaf(lid), x, 0) implies has_id(cs[j], x, 0) || (has_id(cs[j + 1], x, 0) && x != cid) by {}
    lemma_joined_without(pid, cs, n0, lo, hi, h, j, Shape::Leaf(lid));
    assert forall|x: u64| #[trigger] nm.contains_key(x) && !has_id(csm[j], x, 0) && x != cid
        implies n1.contains_key(x) && n1[x] == nm[x] by {}
    let keys_m = nm[pid].keys;
    assert(child_lo(keys_m, lo, j) == lo_j) by {
        if j > 0 {
            assert(keys_m[j - 1] == keys[j - 1]);
        }
    }
    assert(child_hi(keys_m, hi, j) == hi1) by {
        if j < keys_m.len() {
            assert(keys_m[j] == keys[j + 1]);
        }
    }
    assert forall|k: KeyView| in_range(k, lo_j, hi1) && key_lt(k, sep2) implies #[trigger] lookup(Shape::Leaf(lid), n1, k, 0)
        == lookup(csm[j], nm, k, 0) by {}
    assert forall|k: KeyView| in_range(k, lo_j, hi1) && !key_lt(k, sep2) implies #[trigger] lookup(Shape::Leaf(cid), n1, k, 0)
        == lookup(csm[j], nm, k, 0) by {
        assert(leaf_get(c2, k) == leaf_get(right, k));
    }
    lemma_child_resplit(pid, csm, nm, n1, lo, hi, h, j, Shape::Leaf(lid), Shape::Leaf(cid), sep2);
    let cs2 = csm.update(j, Shape::Leaf(lid)).insert(j + 1, Shape::Leaf(cid));
    assert(cs2 =~= cs);
    let np = NodeView { keys: keys_m.insert(j, sep2), children: nm[pid].children.insert(j + 1, cid), ..nm[pid] };
    let p2 = NodeView { keys: p.keys.update(j, l.keys.last()), ..p };
    assert(np.keys =~= p2.keys);
    assert(np.children =~= p2.children);
    assert(np == p2);
    let nf = n0.insert(pid, p2).insert(cid, c2).insert(lid, l2);
    assert(n1.insert(pid, np) =~= nf);
}

/// Joining leaf `j + 1` into leaf `j`; the joined leaf links to what the right one linked to.
#[verifier::spinoff_prover]
#[verifier::rlimit(60)]
pub proof fn lemma_merge_leaf(
    pid: u64,
    cs: Seq<Shape>,
    n0: Map<u64, NodeView>,
    lo: Option<KeyView>,
    hi: Option<KeyView>,
    h: nat,
    j: int,
)
    requires
        wf_shape(Shape::Inner(pid, cs), n0, lo, hi, h),
        0 <= j,
        j + 1 < cs.len(),
        h == 1,
    ensures
        ({
            let p = n0[pid];
            let lid = cs[j].id();
            let rid = cs[j + 1].id();
            let l = n0[lid];
            let r = n0[rid];
            let m = NodeView {
                keys: l.keys + r.keys,
                values: l.values + r.values,
                next_leaf: r.next_leaf,
                ..l
            };
            let pm = NodeView { keys: p.keys.remove(j), children: p.children.remove(j + 1), ..p };
            rebalance_done(
                n0,
                n0.insert(pid, pm).insert(lid, m),
                Shape::Inner(pid, cs),
                lo,
                hi,
                h,
                Shape::Inner(pid, cs.update(j, Shape::Leaf(lid)).remove(j + 1)),
            )
        }),
{
    lemma_key_order();
    lemma_pair_facts(pid, cs, n0, lo, hi, h, j);
    let t = Shape::Inner(pid, cs);
    assert(t->1 == cs);
    let p = n0[pid];
    let keys = p.keys;
    let lid = cs[j].id();
    let rid = cs[j + 1].id();
    let l = n0[lid];
    let r = n0[rid];
    let s = keys[j];
    let lo_j = child_lo(keys, lo, j);
    let hi1 = child_hi(keys, hi, j + 1);
    assert(leaf_ok(l, lo_j, Some(s)));
    assert(leaf_ok(r, Some(s), hi1));
    lemma_leaf_merge(l, r, lo_j, s, hi1);
    let mv = leaf_with_keys(l, l.keys + r.keys, l.values + r.values);
    let m = NodeView { keys: l.keys + r.keys, values: l.values + r.values, next_leaf: r.next_leaf, ..l };
    assert(leaf_ok(m, lo_j, hi1));
    let pm = NodeView { keys: keys.remove(j), children: p.children.remove(j + 1), ..p };
    let nf = n0.insert(pid, pm).insert(lid, m);
    assert forall|k: KeyView| in_range(k, lo_j, hi1) implies #[trigger] lookup(Shape::Leaf(lid), nf, k, 0)
        == pair_get(cs, keys, j, n0, 0, k) by {
        assert(leaf_get(m, k) == leaf_get(mv, k));
        assert(leaf_get(mv, k) == if key_lt(k, s) { leaf_get(l, k) } else { leaf_get(r, k) });
    }
    assert forall|x: u64| #[trigger] has_id(Shape::Leaf(lid), x, 0) implies has_id(cs[j], x, 0) || has_id(cs[j + 1], x, 0) by {}
    assert forall|x: u64| #[trigger] n0.contains_key(x) && x != pid && !has_id(cs[j], x, 0) && !has_id(cs[j + 1], x, 0)
        implies nf.contains_key(x) && nf[x] == n0[x] by {}
    lemma_parent_merge(pid, cs, n0, nf, lo, hi, h, j, Shape::Leaf(lid));
}

/// Joining internal node `j + 1` into internal node `j`, the separator moving down.
#[verifier::spinoff_prover]
#[verifier::rlimit(60)]
pub proof fn lemma_merge_inner(
    pid: u64,
    cs: Seq<Shape>,
    n0: Map<u64, NodeView>,
    lo: Option<KeyView>,
    hi: Option<KeyView>,
    h: nat,
    j: int,
)
    requires
        wf_shape(Shape::Inner(pid, cs), n0, lo, hi, h),
        0 <= j,
        j + 1 < cs.len(),
        h > 1,
    ensures
        ({
            let p = n0[pid];
            let lid = cs[j].id();
            let rid = cs[j + 1].id();
            let l = n0[lid];
            let r = n0[rid];
            let m = inner_with(l, l.keys.push(p.keys[j]) + r.keys, l.children + r.children);
            let pm = NodeView { keys: p.keys.remove(j), children: p.children.remove(j + 1), ..p };
            rebalance_done(
                n0,
                n0.insert(pid, pm).insert(lid, m),
                Shape::Inner(pid, cs),
                lo,
                hi,
                h,
                Shape::Inner(pid, cs.update(j, Shape::Inner(lid, cs[j]->1 + cs[j + 1]->1)).remove(j + 1)),
            )
        }),
{
    lemma_key_order();
    lemma_pair_facts(pid, cs, n0, lo, hi, h, j);
    let t = Shape::Inner(pid, cs);
    assert(t->1 == cs);
    let hc = (h - 1) as nat;
    let p = n0[pid];
    let keys = p.keys;
    let lid = cs[j].id();
    let rid = cs[j + 1].id();
    let lcs = cs[j]->1;
    let rcs = cs[j + 1]->1;
    assert(cs[j] == Shape::Inner(lid, lcs));
    assert(cs[j + 1] == Shape::Inner(rid, rcs));
    let l = n0[lid];
    let r = n0[rid];
    let s = keys[j];
    let lo_j = child_lo(keys, lo, j);
    let hi1 = child_hi(keys, hi, j + 1);
    lemma_inner_merge(lid, lcs, rid, rcs, n0, lo_j, s, hi1, hc);
    let m = inner_with(l, l.keys.push(s) + r.keys, l.children + r.children);
    let mt = Shape::Inner(lid, lcs + rcs);
    let na = n0.insert(lid, m);
    let pm = NodeView { keys: keys.remove(j), children: p.children.remove(j + 1), ..p };
    let nf = n0.insert(pid, pm).insert(lid, m);
    assert(nf =~= na.insert(pid, pm));
    lemma_ids_known(mt, na, lo_j, hi1, hc);
    assert(!has_id(mt, pid, hc));
    assert(same_on(mt, hc, na, nf));
    lemma_frame(mt, na, nf, lo_j, hi1, hc);
    assert forall|k: KeyView| in_range(k, lo_j, hi1) implies #[trigger] lookup(mt, nf, k, hc)
        == pair_get(cs, keys, j, n0, hc, k) by {
        assert(lookup(mt, nf, k, hc) == lookup(mt, na, k, hc));
    }
    assert forall|x: u64| #[trigger] has_id(mt, x, hc) implies has_id(cs[j], x, hc) || has_id(cs[j + 1], x, hc) by {}
    assert forall|x: u64| #[trigger] n0.contains_key(x) && x != pid && !has_id(cs[j], x, hc) && !has_id(cs[j + 1], x, hc)
        implies nf.contains_key(x) && nf[x] == n0[x] by {}
    lemma_parent_merge(pid, cs, n0, nf, lo, hi, h, j, mt);
}

/// The two halves of a split of the joined pair, as shapes.
pub open spec fn split_shapes(lid: u64, rid: u64, cs: Seq<Shape>, mid: int) -> (Shape, Shape) {
    (Shape::Inner(lid, cs.subrange(0, mid + 1)), Shape::Inner(rid, cs.subrange(mid + 1, cs.len() as int)))
}

/// Joining internal children `j` and `j + 1` and cutting the result again
/// after separator `mid` of the joined node: the cut separator moves up.
#[verifier::spinoff_prover]
#[verifier::rlimit(100)]
pub proof fn lemma_rotate_inner(
    pid: u64,
    cs: Seq<Shape>,
    n0: Map<u64, NodeView>,
    lo: Option<KeyView>,
    hi: Option<KeyView>,
    h: nat,
    j: int,
    mid: int,
)
    requires
        wf_shape(Shape::Inner(pid, cs), n0, lo, hi, h),
        0 <= j,
        j + 1 < cs.len(),
        h > 1,
        0 <= mid < n0[cs[j].id()].keys.len() + 1 + n0[cs[j + 1].id()].keys.len(),
    ensures
        ({
            let p = n0[pid];
            let lid = cs[j].id();
            let rid = cs[j + 1].id();
            let l = n0[lid];
            let r = n0[rid];
            let mk = l.keys.push(p.keys[j]) + r.keys;
            let mc = l.children + r.children;
            let l2 = inner_with(l, mk.subrange(0, mid), mc.subrange(0, mid + 1));
            let r2 = inner_with(r, mk.subrange(mid + 1, mk.len() as int), mc.subrange(mid + 1, mc.len() as int));
            let p2 = NodeView { keys: p.keys.update(j, mk[mid]), ..p };
            let halves = split_shapes(lid, rid, cs[j]->1 + cs[j + 1]->1, mid);
            rebalance_done(
                n0,
                n0.insert(pid, p2).insert(lid, l2).insert(rid, r2),
                Shape::Inner(pid, cs),
                lo,
                hi,
                h,
                Shape::Inner(pid, cs.update(j, halves.0).update(j + 1, halves.1)),
            )
        }),
{
    lemma_key_order();
    lemma_pair_facts(pid, cs, n0, lo, hi, h, j);
    let t = Shape::Inner(pid, cs);
    assert(t->1 == cs);
    let hc = (h - 1) as nat;
    let p = n0[pid];
    let keys = p.keys;
    let lid = cs[j].id();
    let rid = cs[j + 1].id();
    let lcs = cs[j]->1;
    let rcs = cs[j + 1]->1;
    assert(cs[j] == Shape::Inner(lid, lcs));
    assert(cs[j + 1] == Shape::Inner(rid, rcs));
    let l = n0[lid];
    let r = n0[rid];
    let s = keys[j];
    let lo_j = child_lo(keys, lo, j);
    let hi1 = child_hi(keys, hi, j + 1);
    lemma_inner_merge(lid, lcs, rid, rcs, n0, lo_j, s, hi1, hc);
    let mk = l.keys.push(s) + r.keys;
    let mc = l.children + r.children;
    let m = inner_with(l, mk, mc);
    let mcs = lcs + rcs;
    let mt = Shape::Inner(lid, mcs);
    let na = n0.insert(lid, m);
    let pm = NodeView { keys: keys.remove(j), children: p.children.remove(j + 1), ..p };
    let nm = na.insert(pid, pm);
    lemma_ids_known(mt, na, lo_j, hi1, hc);
    assert(!has_id(mt, pid, hc));
    assert(same_on(mt, hc, na, nm));
    lemma_frame(mt, na, nm, lo_j, hi1, hc);
    assert forall|k: KeyView| in_range(k, lo_j, hi1) implies #[trigger] lookup(mt, nm, k, hc)
        == pair_get(cs, keys, j, n0, hc, k) by {
        assert(lookup(mt, nm, k, hc) == lookup(mt, na, k, hc));
    }
    assert forall|x: u64| #[trigger] has_id(mt, x, hc) implies has_id(cs[j], x, hc) || has_id(cs[j + 1], x, hc) by {}
    assert forall|x: u64| #[trigger] n0.contains_key(x) && x != pid && !has_id(cs[j], x, hc) && !has_id(cs[j + 1], x, hc)
        implies nm.contains_key(x) && nm[x] == n0[x] by {}
    lemma_parent_merge(pid, cs, n0, nm, lo, hi, h, j, mt);
    let csm = cs.update(j, mt).remove(j + 1);
    let tm = Shape::Inner(pid, csm);
    assert(tm->1 == csm);
    lemma_joined_without(pid, cs, n0, lo, hi, h, j, mt);
    // Cut the joined node after separator `mid`.
    assert(!has_id(mt, rid, hc));
    assert(nm[lid] == m);
    lemma_inner_split(lid, mcs, nm, lo_j, hi1, hc, rid, mid, r);
    let sep2 = mk[mid];
    let l2 = inner_with(m, mk.subrange(0, mid), mc.subrange(0, mid + 1));
    let r2 = inner_with(r, mk.subrange(mid + 1, mk.len() as int), mc.subrange(mid + 1, mc.len() as int));
    assert(l2 == inner_with(l, mk.subrange(0, mid), mc.subrange(0, mid + 1)));
    let n1 = nm.insert(lid, l2).insert(rid, r2);
    let tl = Shape::Inner(lid, mcs.subrange(0, mid + 1));
    let tr = Shape::Inner(rid, mcs.subrange(mid + 1, mcs.len() as int));
    assert(mcs.len() == mk.len() + 1) by {
        assert(l.children == child_ids(lcs));
        assert(r.children == child_ids(rcs));
    }
    assert(mc.len() == mcs.len());
    assert forall|x: u64| #[trigger] nm.contains_key(x) && !has_id(csm[j], x, hc) && x != rid
        implies n1.contains_key(x) && n1[x] == nm[x] by {
        lemma_has_own_id(mt, hc);
    }
    let keys_m = nm[pid].keys;
    assert(child_lo(keys_m, lo, j) == lo_j) by {
        if j > 0 {
            assert(keys_m[j - 1] == keys[j - 1]);
        }
    }
    assert(child_hi(keys_m, hi, j) == hi1) by {
        if j < keys_m.len() {
            assert(keys_m[j] == keys[j + 1]);
        }
    }
    assert forall|x: u64| #[trigger] has_id(tl, x, hc) implies has_id(csm[j], x, hc) || x == rid by {}
    assert forall|x: u64| #[trigger] has_id(tr, x, hc) implies has_id(csm[j], x, hc) || x == rid by {}
    assert forall|k: KeyView| in_range(k, lo_j, hi1) && key_lt(k, sep2) implies #[trigger] lookup(tl, n1, k, hc)
        == lookup(csm[j], nm, k, hc) by {}
    assert forall|k: KeyView| in_range(k, lo_j, hi1) && !key_lt(k, sep2) implies #[trigger] lookup(tr, n1, k, hc)
        == lookup(csm[j], nm, k, hc) by {}
    lemma_child_resplit(pid, csm, nm, n1, lo, hi, h, j, tl, tr, sep2);
    let cs2 = csm.update(j, tl).insert(j + 1, tr);
    assert(cs2 =~= cs.update(j, tl).update(j + 1, tr));
    let np = NodeView { keys: keys_m.insert(j, sep2), children: nm[pid].children.insert(j + 1, rid), ..nm[pid] };
    let p2 = NodeView { keys: p.keys.update(j, sep2), ..p };
    assert(np.keys =~= p2.keys);
    assert(np.children =~= p2.children);
    assert(np == p2);
    let nf = n0.insert(pid, p2).insert(lid, l2).insert(rid, r2);
    assert(n1.insert(pid, np) =~= nf);
    assert(split_shapes(lid, rid, mcs, mid) == (tl, tr));
}

/// Removing the key at position `i` from a leaf.
#[verifier::spinoff_prover]
pub proof fn lemma_leaf_remove(n: NodeView, lo: Option<KeyView>, hi: Option<KeyView>, i: int)
    requires
        leaf_ok(n, lo, hi),
        0 <= i < n.keys.len(),
    ensures
        leaf_ok(leaf_with_keys(n, n.keys.remove(i), n.values.remove(i)), lo, hi),
        forall|k: KeyView| #[trigger]
            leaf_get(leaf_with_keys(n, n.keys.remove(i), n.values.remove(i)), k) == if k == n.keys[i] {
                None
            } else {
                leaf_get(n, k)
            },
{
    lemma_key_order();
    let ks = n.keys;
    let ks2 = ks.remove(i);
    let n2 = leaf_with_keys(n, ks2, n.values.remove(i));
    assert forall|a: int, b: int| 0 <= a < b < ks2.len() implies key_lt(#[trigger] ks2[a], #[trigger] ks2[b]) by {
        let a0 = if a < i { a } else { a + 1 };
        let b0 = if b < i { b } else { b + 1 };
        assert(ks2[a] == ks[a0]);
        assert(ks2[b] == ks[b0]);
    }
    assert forall|j: int| 0 <= j < ks2.len() implies in_range(#[trigger] ks2[j], lo, hi) by {
        if j < i {
            assert(ks2[j] == ks[j]);
        } else {
            assert(ks2[j] == ks[j + 1]);
        }
    }
    assert forall|k: KeyView| #[trigger] leaf_get(n2, k) == if k == ks[i] {
        None
    } else {
        leaf_get(n, k)
    } by {
        if ks2.contains(k) {
            let j = choose|j: int| 0 <= j < ks2.len() && ks2[j] == k;
            let j0 = if j < i { j } else { j + 1 };
            assert(ks[j0] == k);
            lemma_key_index(ks, j0);
            lemma_key_index(ks2, j);
            assert(n2.values[j] == n.values[j0]);
            if k == ks[i] {
                assert(j0 != i);
                if j0 < i {
                    assert(key_lt(ks[j0], ks[i]));
                } else {
                    assert(key_lt(ks[i], ks[j0]));
                }
            }
        } else if k != ks[i] && ks.contains(k) {
            let j = choose|j: int| 0 <= j < ks.len() && ks[j] == k;
            if j < i {
                assert(ks2[j] == k);
            } else {
                assert(ks2[j - 1] == k);
            }
        }
    }
}

/// A well-formed leaf has one value per key; a well-formed internal node one
/// more child than keys.
pub proof fn lemma_node_arity(t: Shape, n: Map<u64, NodeView>, lo: Option<KeyView>, hi: Option<KeyView>, h: nat)
    requires
        wf_shape(t, n, lo, hi, h),
    ensures
        n[t.id()].values.len() == n[t.id()].keys.len() || n[t.id()].children.len() == n[t.id()].keys.len() + 1,
        n[t.id()].is_leaf ==> n[t.id()].values.len() == n[t.id()].keys.len(),
        !n[t.id()].is_leaf ==> n[t.id()].children.len() == n[t.id()].keys.len() + 1,
        t is Inner ==> t->1.len() == n[t.id()].keys.len() + 1,
{
    match t {
        Shape::Leaf(id) => {},
        Shape::Inner(id, cs) => {
            assert(child_ids(cs).len() == cs.len());
        },
    }
}

} // verus!
