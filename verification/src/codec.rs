//! The byte format in which a page stores its node.
//!
//! A node is written as: its type tag (1 for a leaf, 0 for an internal node);
//! the key count and the keys; the child count and the child page ids; the
//! value count and the values; then the next and previous leaf links.
//! Counts, integers and page ids are 8 bytes little-endian; a tag is 4 bytes
//! little-endian; a byte string is its length followed by its bytes; a key is
//! a tag (0 integer, 1 text, 2 bytes) followed by its payload, text as its
//! UTF-8 bytes; a link is one byte (0 none, 1 some) followed, when present,
//! by the page id. This is the layout bincode's default encoding gives the
//! same node. Reading stops at the end of the node: bytes after it are
//! ignored, as bincode's default reading ignores them.
use vstd::prelude::*;
use vstd::bytes::*;
use vstd::utf8::*;
use vstd::string::*;
use crate::key::{Key, KeyView};
use crate::node::{Node, NodeView, NodeType, keys_view, values_view};

verus! {

broadcast use vstd::utf8::encode_utf8_decode_utf8, vstd::utf8::encode_utf8_valid_utf8;

// ---------------------------------------------------------------------------
// The format
// ---------------------------------------------------------------------------

pub open spec fn enc_u64(x: u64) -> Seq<u8> {
    spec_u64_to_le_bytes(x)
}

pub open spec fn enc_bytes(b: Seq<u8>) -> Seq<u8> {
    enc_u64(b.len() as u64) + b
}

/// A variant tag: 4 bytes little-endian.
pub open spec fn enc_tag(t: u8) -> Seq<u8> {
    seq![t, 0u8, 0u8, 0u8]
}

pub open spec fn enc_key(k: KeyView) -> Seq<u8> {
    match k {
        KeyView::Integer(v) => enc_tag(0) + enc_u64(v as u64),
        KeyView::Text(s) => enc_tag(1) + enc_bytes(encode_utf8(s)),
        KeyView::Bytes(b) => enc_tag(2) + enc_bytes(b),
    }
}

/// The concatenated encodings of a list of items.
pub open spec fn enc_list<T>(xs: Seq<T>, f: spec_fn(T) -> Seq<u8>) -> Seq<u8>
    decreases xs.len(),
{
    if xs.len() == 0 {
        Seq::empty()
    } else {
        enc_list(xs.drop_last(), f) + f(xs.last())
    }
}

pub open spec fn enc_opt(o: Option<u64>) -> Seq<u8> {
    match o {
        None => seq![0u8],
        Some(x) => seq![1u8] + enc_u64(x),
    }
}

pub open spec fn enc_key_fn() -> spec_fn(KeyView) -> Seq<u8> {
    |k: KeyView| enc_key(k)
}

pub open spec fn enc_id_fn() -> spec_fn(u64) -> Seq<u8> {
    |x: u64| enc_u64(x)
}

pub open spec fn enc_value_fn() -> spec_fn(Seq<u8>) -> Seq<u8> {
    |b: Seq<u8>| enc_bytes(b)
}

/// The bytes that store node `n`.
pub open spec fn encode_node(n: NodeView) -> Seq<u8> {
    enc_tag(if n.is_leaf { 1u8 } else { 0u8 }) + enc_u64(n.keys.len() as u64) + enc_list(
        n.keys,
        enc_key_fn(),
    ) + enc_u64(n.children.len() as u64) + enc_list(n.children, enc_id_fn()) + enc_u64(
        n.values.len() as u64,
    ) + enc_list(n.values, enc_value_fn()) + enc_opt(n.next_leaf) + enc_opt(n.prev_leaf)
}

pub open spec fn key_fits(k: KeyView) -> bool {
    match k {
        KeyView::Text(s) => encode_utf8(s).len() <= u64::MAX,
        KeyView::Bytes(b) => b.len() <= u64::MAX,
        _ => true,
    }
}

/// Every length in the node can be written in 8 bytes.
pub open spec fn node_fits(n: NodeView) -> bool {
    &&& n.keys.len() <= u64::MAX
    &&& n.children.len() <= u64::MAX
    &&& n.values.len() <= u64::MAX
    &&& forall|i: int| 0 <= i < n.keys.len() ==> key_fits(#[trigger] n.keys[i])
    &&& forall|i: int| 0 <= i < n.values.len() ==> #[trigger] n.values[i].len() <= u64::MAX
}

// ---------------------------------------------------------------------------
// Reading the format back
// ---------------------------------------------------------------------------

pub open spec fn parse_u64(d: Seq<u8>, p: int) -> Option<(u64, int)> {
    if 0 <= p && p + 8 <= d.len() {
        Some((spec_u64_from_le_bytes(d.subrange(p, p + 8)), p + 8))
    } else {
        None
    }
}

pub open spec fn parse_bytes(d: Seq<u8>, p: int) -> Option<(Seq<u8>, int)> {
    match parse_u64(d, p) {
        Some((n, q)) => if q + n <= d.len() {
            Some((d.subrange(q, q + n), q + n))
        } else {
            None
        },
        None => None,
    }
}

/// A variant tag at `p`: its low byte, and where it ends.
pub open spec fn parse_tag(d: Seq<u8>, p: int) -> Option<(u8, int)> {
    if 0 <= p && p + 4 <= d.len() && d[p + 1] == 0 && d[p + 2] == 0 && d[p + 3] == 0 {
        Some((d[p], p + 4))
    } else {
        None
    }
}

pub open spec fn parse_key(d: Seq<u8>, p: int) -> Option<(KeyView, int)> {
    if parse_tag(d, p) is Some {
        if d[p] == 0 {
            match parse_u64(d, p + 4) {
                Some((x, q)) => Some((KeyView::Integer(x as i64), q)),
                None => None,
            }
        } else if d[p] == 1 {
            match parse_bytes(d, p + 4) {
                Some((b, q)) => if valid_utf8(b) {
                    Some((KeyView::Text(decode_utf8(b)), q))
                } else {
                    None
                },
                None => None,
            }
        } else if d[p] == 2 {
            match parse_bytes(d, p + 4) {
                Some((b, q)) => Some((KeyView::Bytes(b), q)),
                None => None,
            }
        } else {
            None
        }
    } else {
        None
    }
}

pub open spec fn parse_opt(d: Seq<u8>, p: int) -> Option<(Option<u64>, int)> {
    if 0 <= p < d.len() {
        if d[p] == 0 {
            Some((None, p + 1))
        } else if d[p] == 1 {
            match parse_u64(d, p + 1) {
                Some((x, q)) => Some((Some(x), q)),
                None => None,
            }
        } else {
            None
        }
    } else {
        None
    }
}

/// Reads `n` items one after another, starting at `p`.
pub open spec fn parse_list<T>(
    d: Seq<u8>,
    p: int,
    n: nat,
    pf: spec_fn(Seq<u8>, int) -> Option<(T, int)>,
) -> Option<(Seq<T>, int)>
    decreases n,
{
    if n == 0 {
        Some((Seq::empty(), p))
    } else {
        match parse_list(d, p, (n - 1) as nat, pf) {
            Some((xs, q)) => match pf(d, q) {
                Some((x, r)) => Some((xs.push(x), r)),
                None => None,
            },
            None => None,
        }
    }
}

pub open spec fn parse_key_fn() -> spec_fn(Seq<u8>, int) -> Option<(KeyView, int)> {
    |d: Seq<u8>, p: int| parse_key(d, p)
}

pub open spec fn parse_id_fn() -> spec_fn(Seq<u8>, int) -> Option<(u64, int)> {
    |d: Seq<u8>, p: int| parse_u64(d, p)
}

pub open spec fn parse_value_fn() -> spec_fn(Seq<u8>, int) -> Option<(Seq<u8>, int)> {
    |d: Seq<u8>, p: int| parse_bytes(d, p)
}

/// Reads a node from the start of `d`; bytes after the node are ignored.
pub open spec fn parse_node(d: Seq<u8>) -> Option<NodeView> {
    if parse_tag(d, 0) is Some && (d[0] == 0 || d[0] == 1) {
        match parse_u64(d, 4) {
            None => None,
            Some((nk, p1)) => match parse_list(d, p1, nk as nat, parse_key_fn()) {
                None => None,
                Some((keys, p2)) => match parse_u64(d, p2) {
                    None => None,
                    Some((nc, p3)) => match parse_list(d, p3, nc as nat, parse_id_fn()) {
                        None => None,
                        Some((children, p4)) => match parse_u64(d, p4) {
                            None => None,
                            Some((nv, p5)) => match parse_list(d, p5, nv as nat, parse_value_fn()) {
                                None => None,
                                Some((values, p6)) => match parse_opt(d, p6) {
                                    None => None,
                                    Some((next_leaf, p7)) => match parse_opt(d, p7) {
                                        None => None,
                                        Some((prev_leaf, _p8)) => Some(
                                            NodeView {
                                                is_leaf: d[0] == 1,
                                                keys,
                                                children,
                                                values,
                                                next_leaf,
                                                prev_leaf,
                                            },
                                        ),
                                    },
                                },
                            },
                        },
                    },
                },
            },
        }
    } else {
        None
    }
}

/// `d` holds `e` at position `p`.
pub open spec fn holds_at(d: Seq<u8>, p: int, e: Seq<u8>) -> bool {
    0 <= p && p + e.len() <= d.len() && d.subrange(p, p + e.len()) == e
}

pub proof fn lemma_holds_split(d: Seq<u8>, p: int, a: Seq<u8>, b: Seq<u8>)
    ensures
        holds_at(d, p, a + b) <==> (holds_at(d, p, a) && holds_at(d, p + a.len(), b)),
{
    if holds_at(d, p, a + b) {
        assert(d.subrange(p, p + a.len()) =~= (a + b).subrange(0, a.len() as int));
        assert(d.subrange(p + a.len(), p + a.len() + b.len()) =~= (a + b).subrange(
            a.len() as int,
            (a.len() + b.len()) as int,
        ));
        assert((a + b).subrange(0, a.len() as int) =~= a);
        assert((a + b).subrange(a.len() as int, (a.len() + b.len()) as int) =~= b);
    }
    if holds_at(d, p, a) && holds_at(d, p + a.len(), b) {
        assert(d.subrange(p, p + (a + b).len()) =~= a + b) by {
            assert forall|i: int| 0 <= i < (a + b).len() implies d.subrange(
                p,
                p + (a + b).len(),
            )[i] == (a + b)[i] by {
                if i < a.len() {
                    assert(d.subrange(p, p + a.len())[i] == a[i]);
                } else {
                    assert(d.subrange(p + a.len(), p + a.len() + b.len())[i - a.len()] == b[i
                        - a.len()]);
                }
            }
        }
    }
}

pub proof fn lemma_u64_roundtrip(x: u64)
    ensures
        enc_u64(x).len() == 8,
        spec_u64_from_le_bytes(enc_u64(x)) == x,
{
    lemma_auto_spec_u64_to_from_le_bytes();
}

pub proof fn lemma_u64_sound(s: Seq<u8>)
    requires
        s.len() == 8,
    ensures
        enc_u64(spec_u64_from_le_bytes(s)) == s,
{
    lemma_auto_spec_u64_to_from_le_bytes();
}

pub proof fn lemma_i64_u64(v: i64)
    ensures
        (v as u64) as i64 == v,
{
    assert((v as u64) as i64 == v) by (bit_vector);
}

pub proof fn lemma_u64_i64(x: u64)
    ensures
        (x as i64) as u64 == x,
{
    assert((x as i64) as u64 == x) by (bit_vector);
}

pub proof fn lemma_parse_u64_roundtrip(d: Seq<u8>, p: int, x: u64)
    requires
        holds_at(d, p, enc_u64(x)),
    ensures
        parse_u64(d, p) == Some((x, p + 8)),
{
    lemma_u64_roundtrip(x);
}

pub proof fn lemma_parse_u64_sound(d: Seq<u8>, p: int)
    requires
        parse_u64(d, p) is Some,
    ensures
        ({
            let (x, q) = parse_u64(d, p).unwrap();
            q == p + 8 && holds_at(d, p, enc_u64(x))
        }),
{
    lemma_u64_sound(d.subrange(p, p + 8));
}

pub proof fn lemma_parse_bytes_roundtrip(d: Seq<u8>, p: int, b: Seq<u8>)
    requires
        holds_at(d, p, enc_bytes(b)),
        b.len() <= u64::MAX,
    ensures
        parse_bytes(d, p) == Some((b, p + enc_bytes(b).len())),
{
    lemma_u64_roundtrip(b.len() as u64);
    lemma_holds_split(d, p, enc_u64(b.len() as u64), b);
    lemma_parse_u64_roundtrip(d, p, b.len() as u64);
}

pub proof fn lemma_parse_bytes_sound(d: Seq<u8>, p: int)
    requires
        parse_bytes(d, p) is Some,
    ensures
        ({
            let (b, q) = parse_bytes(d, p).unwrap();
            q == p + enc_bytes(b).len() && holds_at(d, p, enc_bytes(b)) && b.len() <= u64::MAX
        }),
{
    lemma_parse_u64_sound(d, p);
    let (n, q) = parse_u64(d, p).unwrap();
    let (b, r) = parse_bytes(d, p).unwrap();
    assert(b.len() == n);
    lemma_u64_roundtrip(n);
    lemma_holds_split(d, p, enc_u64(n), b);
}

pub proof fn lemma_parse_tag_roundtrip(d: Seq<u8>, p: int, t: u8)
    requires
        holds_at(d, p, enc_tag(t)),
    ensures
        parse_tag(d, p) == Some((t, p + 4)),
        d[p] == t,
{
    let s = d.subrange(p, p + 4);
    assert(s[0] == d[p] && s[1] == d[p + 1] && s[2] == d[p + 2] && s[3] == d[p + 3]);
}

pub proof fn lemma_parse_tag_sound(d: Seq<u8>, p: int)
    requires
        parse_tag(d, p) is Some,
    ensures
        holds_at(d, p, enc_tag(d[p])),
{
    assert(d.subrange(p, p + 4) =~= enc_tag(d[p]));
}

pub proof fn lemma_parse_key_roundtrip(d: Seq<u8>, p: int, k: KeyView)
    requires
        holds_at(d, p, enc_key(k)),
        key_fits(k),
    ensures
        parse_key(d, p) == Some((k, p + enc_key(k).len())),
{
    match k {
        KeyView::Integer(v) => {
            lemma_u64_roundtrip(v as u64);
            lemma_holds_split(d, p, enc_tag(0), enc_u64(v as u64));
            lemma_parse_tag_roundtrip(d, p, 0);
            lemma_parse_u64_roundtrip(d, p + 4, v as u64);
            lemma_i64_u64(v);
        },
        KeyView::Text(s) => {
            let b = encode_utf8(s);
            lemma_holds_split(d, p, enc_tag(1), enc_bytes(b));
            lemma_parse_tag_roundtrip(d, p, 1);
            lemma_parse_bytes_roundtrip(d, p + 4, b);
        },
        KeyView::Bytes(b) => {
            lemma_holds_split(d, p, enc_tag(2), enc_bytes(b));
            lemma_parse_tag_roundtrip(d, p, 2);
            lemma_parse_bytes_roundtrip(d, p + 4, b);
        },
    }
}

pub proof fn lemma_parse_key_sound(d: Seq<u8>, p: int)
    requires
        parse_key(d, p) is Some,
    ensures
        ({
            let (k, q) = parse_key(d, p).unwrap();
            q == p + enc_key(k).len() && holds_at(d, p, enc_key(k)) && key_fits(k)
        }),
{
    let (k, q) = parse_key(d, p).unwrap();
    lemma_parse_tag_sound(d, p);
    if d[p] == 0 {
        lemma_parse_u64_sound(d, p + 4);
        let x = parse_u64(d, p + 4).unwrap().0;
        lemma_u64_i64(x);
        lemma_u64_roundtrip(x);
        lemma_holds_split(d, p, enc_tag(0), enc_u64(x));
    } else if d[p] == 1 {
        lemma_parse_bytes_sound(d, p + 4);
        let b = parse_bytes(d, p + 4).unwrap().0;
        vstd::utf8::decode_utf8_encode_utf8(b);
        lemma_holds_split(d, p, enc_tag(1), enc_bytes(b));
    } else {
        lemma_parse_bytes_sound(d, p + 4);
        let b = parse_bytes(d, p + 4).unwrap().0;
        lemma_holds_split(d, p, enc_tag(2), enc_bytes(b));
    }
}

pub proof fn lemma_parse_opt_roundtrip(d: Seq<u8>, p: int, o: Option<u64>)
    requires
        holds_at(d, p, enc_opt(o)),
    ensures
        parse_opt(d, p) == Some((o, p + enc_opt(o).len())),
{
    match o {
        None => {
            assert(d.subrange(p, p + 1)[0] == d[p]);
            assert(enc_opt(o).len() == 1);
        },
        Some(x) => {
            lemma_u64_roundtrip(x);
            lemma_holds_split(d, p, seq![1u8], enc_u64(x));
            assert(d.subrange(p, p + 1)[0] == d[p]);
            lemma_parse_u64_roundtrip(d, p + 1, x);
        },
    }
}

pub proof fn lemma_parse_opt_sound(d: Seq<u8>, p: int)
    requires
        parse_opt(d, p) is Some,
    ensures
        ({
            let (o, q) = parse_opt(d, p).unwrap();
            q == p + enc_opt(o).len() && holds_at(d, p, enc_opt(o))
        }),
{
    assert(holds_at(d, p, seq![d[p]])) by {
        assert(d.subrange(p, p + 1) =~= seq![d[p]]);
    }
    if d[p] == 1 {
        lemma_parse_u64_sound(d, p + 1);
        let x = parse_u64(d, p + 1).unwrap().0;
        lemma_u64_roundtrip(x);
        assert(seq![d[p]] =~= seq![1u8]);
        lemma_holds_split(d, p, seq![1u8], enc_u64(x));
    } else {
        assert(seq![d[p]] =~= seq![0u8]);
    }
}

/// Reading back a list of items gives the items, provided each item reads back.
pub proof fn lemma_parse_list_roundtrip<T>(
    d: Seq<u8>,
    p: int,
    xs: Seq<T>,
    f: spec_fn(T) -> Seq<u8>,
    pf: spec_fn(Seq<u8>, int) -> Option<(T, int)>,
    fits: spec_fn(T) -> bool,
)
    requires
        holds_at(d, p, enc_list(xs, f)),
        forall|i: int| 0 <= i < xs.len() ==> fits(#[trigger] xs[i]),
        forall|q: int, x: T| fits(x) && #[trigger] holds_at(d, q, f(x)) ==> pf(d, q) == Some(
            (x, q + f(x).len()),
        ),
    ensures
        parse_list(d, p, xs.len(), pf) == Some((xs, p + enc_list(xs, f).len())),
    decreases xs.len(),
{
    if xs.len() > 0 {
        let init = xs.drop_last();
        lemma_holds_split(d, p, enc_list(init, f), f(xs.last()));
        assert(fits(xs[xs.len() - 1]));
        lemma_parse_list_roundtrip(d, p, init, f, pf, fits);
        assert(init.push(xs.last()) =~= xs);
    }
}

pub proof fn lemma_parse_list_sound<T>(
    d: Seq<u8>,
    p: int,
    n: nat,
    f: spec_fn(T) -> Seq<u8>,
    pf: spec_fn(Seq<u8>, int) -> Option<(T, int)>,
    fits: spec_fn(T) -> bool,
)
    requires
        parse_list(d, p, n, pf) is Some,
        0 <= p <= d.len(),
        forall|q: int| #[trigger] pf(d, q) is Some ==> {
            let (x, r) = pf(d, q).unwrap();
            r == q + f(x).len() && holds_at(d, q, f(x)) && fits(x)
        },
    ensures
        ({
            let (xs, q) = parse_list(d, p, n, pf).unwrap();
            &&& xs.len() == n
            &&& q == p + enc_list(xs, f).len()
            &&& holds_at(d, p, enc_list(xs, f))
            &&& forall|i: int| 0 <= i < xs.len() ==> fits(#[trigger] xs[i])
        }),
    decreases n,
{
    if n == 0 {
        let (xs, q) = parse_list(d, p, n, pf).unwrap();
        assert(d.subrange(p, p) =~= Seq::<u8>::empty());
    } else {
        lemma_parse_list_sound(d, p, (n - 1) as nat, f, pf, fits);
        let (ys, q) = parse_list(d, p, (n - 1) as nat, pf).unwrap();
        let (x, r) = pf(d, q).unwrap();
        let xs = ys.push(x);
        assert(xs.drop_last() =~= ys);
        lemma_holds_split(d, p, enc_list(ys, f), f(x));
        assert forall|i: int| 0 <= i < xs.len() implies fits(#[trigger] xs[i]) by {
            if i < ys.len() {
                assert(xs[i] == ys[i]);
            }
        }
    }
}

pub proof fn lemma_key_fns(d: Seq<u8>)
    ensures
        forall|q: int, x: KeyView|
            key_fits(x) && #[trigger] holds_at(d, q, enc_key_fn()(x)) ==> parse_key_fn()(d, q)
                == Some((x, q + enc_key_fn()(x).len())),
        forall|q: int| #[trigger] parse_key_fn()(d, q) is Some ==> {
            let (x, r) = parse_key_fn()(d, q).unwrap();
            r == q + enc_key_fn()(x).len() && holds_at(d, q, enc_key_fn()(x)) && key_fits(x)
        },
{
    assert forall|q: int, x: KeyView|
        key_fits(x) && #[trigger] holds_at(d, q, enc_key_fn()(x)) implies parse_key_fn()(d, q)
        == Some((x, q + enc_key_fn()(x).len())) by {
        lemma_parse_key_roundtrip(d, q, x);
    }
    assert forall|q: int| #[trigger] parse_key_fn()(d, q) is Some implies {
        let (x, r) = parse_key_fn()(d, q).unwrap();
        r == q + enc_key_fn()(x).len() && holds_at(d, q, enc_key_fn()(x)) && key_fits(x)
    } by {
        lemma_parse_key_sound(d, q);
    }
}

pub open spec fn id_fits(x: u64) -> bool {
    true
}

pub open spec fn value_fits(b: Seq<u8>) -> bool {
    b.len() <= u64::MAX
}

pub proof fn lemma_id_fns(d: Seq<u8>)
    ensures
        forall|q: int, x: u64|
            id_fits(x) && #[trigger] holds_at(d, q, enc_id_fn()(x)) ==> parse_id_fn()(d, q) == Some(
                (x, q + enc_id_fn()(x).len()),
            ),
        forall|q: int| #[trigger] parse_id_fn()(d, q) is Some ==> {
            let (x, r) = parse_id_fn()(d, q).unwrap();
            r == q + enc_id_fn()(x).len() && holds_at(d, q, enc_id_fn()(x)) && id_fits(x)
        },
{
    assert forall|q: int, x: u64|
        id_fits(x) && #[trigger] holds_at(d, q, enc_id_fn()(x)) implies parse_id_fn()(d, q)
        == Some((x, q + enc_id_fn()(x).len())) by {
        lemma_u64_roundtrip(x);
        lemma_parse_u64_roundtrip(d, q, x);
    }
    assert forall|q: int| #[trigger] parse_id_fn()(d, q) is Some implies {
        let (x, r) = parse_id_fn()(d, q).unwrap();
        r == q + enc_id_fn()(x).len() && holds_at(d, q, enc_id_fn()(x)) && id_fits(x)
    } by {
        lemma_parse_u64_sound(d, q);
        lemma_u64_roundtrip(parse_u64(d, q).unwrap().0);
    }
}

pub proof fn lemma_value_fns(d: Seq<u8>)
    ensures
        forall|q: int, x: Seq<u8>|
            value_fits(x) && #[trigger] holds_at(d, q, enc_value_fn()(x)) ==> parse_value_fn()(d, q)
                == Some((x, q + enc_value_fn()(x).len())),
        forall|q: int| #[trigger] parse_value_fn()(d, q) is Some ==> {
            let (x, r) = parse_value_fn()(d, q).unwrap();
            r == q + enc_value_fn()(x).len() && holds_at(d, q, enc_value_fn()(x)) && value_fits(x)
        },
{
    assert forall|q: int, x: Seq<u8>|
        value_fits(x) && #[trigger] holds_at(d, q, enc_value_fn()(x)) implies parse_value_fn()(
        d,
        q,
    ) == Some((x, q + enc_value_fn()(x).len())) by {
        lemma_parse_bytes_roundtrip(d, q, x);
    }
    assert forall|q: int| #[trigger] parse_value_fn()(d, q) is Some implies {
        let (x, r) = parse_value_fn()(d, q).unwrap();
        r == q + enc_value_fn()(x).len() && holds_at(d, q, enc_value_fn()(x)) && value_fits(x)
    } by {
        lemma_parse_bytes_sound(d, q);
    }
}

/// Reading bytes that start with the bytes of a node gives the node.
pub proof fn lemma_node_roundtrip(d: Seq<u8>, n: NodeView)
    requires
        node_fits(n),
        holds_at(d, 0, encode_node(n)),
    ensures
        parse_node(d) == Some(n),
{
    let tg: u8 = if n.is_leaf { 1u8 } else { 0u8 };
    let t = enc_tag(tg);
    let a = enc_u64(n.keys.len() as u64);
    let b = enc_list(n.keys, enc_key_fn());
    let c = enc_u64(n.children.len() as u64);
    let e = enc_list(n.children, enc_id_fn());
    let f = enc_u64(n.values.len() as u64);
    let g = enc_list(n.values, enc_value_fn());
    let h = enc_opt(n.next_leaf);
    let i = enc_opt(n.prev_leaf);
    lemma_holds_split(d, 0, t + a + b + c + e + f + g + h, i);
    lemma_holds_split(d, 0, t + a + b + c + e + f + g, h);
    lemma_holds_split(d, 0, t + a + b + c + e + f, g);
    lemma_holds_split(d, 0, t + a + b + c + e, f);
    lemma_holds_split(d, 0, t + a + b + c, e);
    lemma_holds_split(d, 0, t + a + b, c);
    lemma_holds_split(d, 0, t + a, b);
    lemma_holds_split(d, 0, t, a);
    lemma_u64_roundtrip(n.keys.len() as u64);
    lemma_u64_roundtrip(n.children.len() as u64);
    lemma_u64_roundtrip(n.values.len() as u64);
    let p1 = 12int;
    lemma_parse_tag_roundtrip(d, 0, tg);
    lemma_parse_u64_roundtrip(d, 4, n.keys.len() as u64);
    lemma_key_fns(d);
    lemma_parse_list_roundtrip(d, p1, n.keys, enc_key_fn(), parse_key_fn(), |k: KeyView| key_fits(k));
    let p2 = p1 + b.len();
    lemma_parse_u64_roundtrip(d, p2, n.children.len() as u64);
    let p3 = p2 + 8;
    lemma_id_fns(d);
    lemma_parse_list_roundtrip(d, p3, n.children, enc_id_fn(), parse_id_fn(), |x: u64| id_fits(x));
    let p4 = p3 + e.len();
    lemma_parse_u64_roundtrip(d, p4, n.values.len() as u64);
    let p5 = p4 + 8;
    lemma_value_fns(d);
    lemma_parse_list_roundtrip(
        d,
        p5,
        n.values,
        enc_value_fn(),
        parse_value_fn(),
        |b: Seq<u8>| value_fits(b),
    );
    let p6 = p5 + g.len();
    lemma_parse_opt_roundtrip(d, p6, n.next_leaf);
    let p7 = p6 + h.len();
    lemma_parse_opt_roundtrip(d, p7, n.prev_leaf);
}

/// Whatever reads back as a node starts with the bytes of that node.
pub proof fn lemma_node_sound(d: Seq<u8>)
    requires
        parse_node(d) is Some,
    ensures
        holds_at(d, 0, encode_node(parse_node(d).unwrap())),
        node_fits(parse_node(d).unwrap()),
{
    let n = parse_node(d).unwrap();
    let t = enc_tag(if n.is_leaf { 1u8 } else { 0u8 });
    lemma_parse_tag_sound(d, 0);
    assert(enc_tag(d[0]) == t);
    lemma_parse_u64_sound(d, 4);
    let (nk, p1) = parse_u64(d, 4).unwrap();
    lemma_key_fns(d);
    lemma_parse_list_sound(d, p1, nk as nat, enc_key_fn(), parse_key_fn(), |k: KeyView| key_fits(k));
    let (keys, p2) = parse_list(d, p1, nk as nat, parse_key_fn()).unwrap();
    lemma_parse_u64_sound(d, p2);
    let (nc, p3) = parse_u64(d, p2).unwrap();
    lemma_id_fns(d);
    lemma_parse_list_sound(d, p3, nc as nat, enc_id_fn(), parse_id_fn(), |x: u64| id_fits(x));
    let (children, p4) = parse_list(d, p3, nc as nat, parse_id_fn()).unwrap();
    lemma_parse_u64_sound(d, p4);
    let (nv, p5) = parse_u64(d, p4).unwrap();
    lemma_value_fns(d);
    lemma_parse_list_sound(
        d,
        p5,
        nv as nat,
        enc_value_fn(),
        parse_value_fn(),
        |b: Seq<u8>| value_fits(b),
    );
    let (values, p6) = parse_list(d, p5, nv as nat, parse_value_fn()).unwrap();
    lemma_parse_opt_sound(d, p6);
    let (next_leaf, p7) = parse_opt(d, p6).unwrap();
    lemma_parse_opt_sound(d, p7);
    let (prev_leaf, p8) = parse_opt(d, p7).unwrap();
    lemma_u64_roundtrip(nk);
    lemma_u64_roundtrip(nc);
    lemma_u64_roundtrip(nv);
    let a = enc_u64(n.keys.len() as u64);
    let b = enc_list(n.keys, enc_key_fn());
    let c = enc_u64(n.children.len() as u64);
    let e = enc_list(n.children, enc_id_fn());
    let f = enc_u64(n.values.len() as u64);
    let g = enc_list(n.values, enc_value_fn());
    let h = enc_opt(n.next_leaf);
    let i = enc_opt(n.prev_leaf);
    lemma_holds_split(d, 0, t, a);
    lemma_holds_split(d, 0, t + a, b);
    lemma_holds_split(d, 0, t + a + b, c);
    lemma_holds_split(d, 0, t + a + b + c, e);
    lemma_holds_split(d, 0, t + a + b + c + e, f);
    lemma_holds_split(d, 0, t + a + b + c + e + f, g);
    lemma_holds_split(d, 0, t + a + b + c + e + f + g, h);
    lemma_holds_split(d, 0, t + a + b + c + e + f + g + h, i);
    assert forall|j: int| 0 <= j < n.keys.len() implies key_fits(#[trigger] n.keys[j]) by {
        assert((|k: KeyView| key_fits(k))(n.keys[j]));
    }
    assert forall|j: int| 0 <= j < n.values.len() implies #[trigger] n.values[j].len() <= u64::MAX by {
        assert((|b: Seq<u8>| value_fits(b))(n.values[j]));
    }
}

/// Distinct nodes are stored as distinct bytes.
pub proof fn lemma_encode_node_injective(m: NodeView, n: NodeView)
    requires
        node_fits(m),
        node_fits(n),
        encode_node(m) == encode_node(n),
    ensures
        m == n,
{
    let d = encode_node(m);
    assert(holds_at(d, 0, d)) by {
        assert(d.subrange(0, d.len() as int) =~= d);
    }
    lemma_node_roundtrip(d, m);
    lemma_node_roundtrip(d, n);
}


/// Whether a list read succeeds does not recover once one read has failed.
pub proof fn lemma_parse_list_none_grows<T>(
    d: Seq<u8>,
    p: int,
    m: nat,
    n: nat,
    pf: spec_fn(Seq<u8>, int) -> Option<(T, int)>,
)
    requires
        parse_list(d, p, m, pf) is None,
        m <= n,
    ensures
        parse_list(d, p, n, pf) is None,
    decreases n,
{
    if n > m {
        lemma_parse_list_none_grows(d, p, m, (n - 1) as nat, pf);
    }
}

proof fn lemma_enc_list_take<T>(xs: Seq<T>, i: int, f: spec_fn(T) -> Seq<u8>)
    requires
        0 <= i < xs.len(),
    ensures
        enc_list(xs.take(i + 1), f) == enc_list(xs.take(i), f) + f(xs[i]),
{
    assert(xs.take(i + 1).drop_last() =~= xs.take(i));
}

// ---------------------------------------------------------------------------
// Writing
// ---------------------------------------------------------------------------

fn push_u64(out: &mut Vec<u8>, x: u64)
    ensures
        final(out)@ == old(out)@ + enc_u64(x),
{
    let mut b = u64_to_le_bytes(x);
    out.append(&mut b);
}

fn push_bytes(out: &mut Vec<u8>, b: &[u8])
    ensures
        final(out)@ == old(out)@ + enc_bytes(b@),
        b@.len() <= u64::MAX,
{
    push_u64(out, b.len() as u64);
    let mut v = vstd::slice::slice_to_vec(b);
    out.append(&mut v);
    assert(final(out)@ =~= old(out)@ + enc_bytes(b@));
}

fn push_tag(out: &mut Vec<u8>, t: u8)
    ensures
        final(out)@ == old(out)@ + enc_tag(t),
{
    out.push(t);
    out.push(0u8);
    out.push(0u8);
    out.push(0u8);
    assert(final(out)@ =~= old(out)@ + enc_tag(t));
}

fn push_key(out: &mut Vec<u8>, k: &Key)
    ensures
        final(out)@ == old(out)@ + enc_key(k@),
        key_fits(k@),
{
    match k {
        Key::Integer(v) => {
            push_tag(out, 0u8);
            push_u64(out, *v as u64);
            assert(final(out)@ =~= old(out)@ + enc_key(k@));
        },
        Key::Text(s) => {
            push_tag(out, 1u8);
            push_bytes(out, s.as_str().as_bytes());
            assert(final(out)@ =~= old(out)@ + enc_key(k@));
        },
        Key::Bytes(b) => {
            push_tag(out, 2u8);
            push_bytes(out, b.as_slice());
            assert(final(out)@ =~= old(out)@ + enc_key(k@));
        },
    }
}

fn push_opt(out: &mut Vec<u8>, o: Option<u64>)
    ensures
        final(out)@ == old(out)@ + enc_opt(o),
{
    match o {
        None => {
            out.push(0u8);
            assert(final(out)@ =~= old(out)@ + enc_opt(o));
        },
        Some(x) => {
            out.push(1u8);
            push_u64(out, x);
            assert(final(out)@ =~= old(out)@ + enc_opt(o));
        },
    }
}

/// Writes a node in the page format.
pub fn encode_node_bytes(n: &Node) -> (r: Vec<u8>)
    ensures
        r@ == encode_node(n@),
        node_fits(n@),
{
    let ghost nv = n@;
    let mut out: Vec<u8> = Vec::new();
    if n.node_type == NodeType::Leaf {
        push_tag(&mut out, 1u8);
    } else {
        push_tag(&mut out, 0u8);
    }
    let ghost t = out@;
    assert(t =~= enc_tag(if nv.is_leaf { 1u8 } else { 0u8 }));
    push_u64(&mut out, n.keys.len() as u64);
    let ghost s1 = out@;
    let mut i: usize = 0;
    assert(nv.keys.take(0) =~= Seq::<KeyView>::empty());
    assert(s1 =~= s1 + enc_list(nv.keys.take(0), enc_key_fn()));
    while i < n.keys.len()
        invariant
            i <= n.keys@.len(),
            nv == n@,
            out@ == s1 + enc_list(nv.keys.take(i as int), enc_key_fn()),
            forall|j: int| 0 <= j < i ==> key_fits(#[trigger] nv.keys[j]),
        decreases n.keys@.len() - i,
    {
        push_key(&mut out, &n.keys[i]);
        proof {
            lemma_enc_list_take(nv.keys, i as int, enc_key_fn());
            assert(out@ =~= s1 + enc_list(nv.keys.take(i + 1), enc_key_fn()));
        }
        i = i + 1;
    }
    assert(nv.keys.take(i as int) =~= nv.keys);
    push_u64(&mut out, n.children.len() as u64);
    let ghost s2 = out@;
    let mut i: usize = 0;
    assert(s2 =~= s2 + enc_list(nv.children.take(0), enc_id_fn()));
    while i < n.children.len()
        invariant
            i <= n.children@.len(),
            nv == n@,
            out@ == s2 + enc_list(nv.children.take(i as int), enc_id_fn()),
        decreases n.children@.len() - i,
    {
        push_u64(&mut out, n.children[i]);
        proof {
            lemma_enc_list_take(nv.children, i as int, enc_id_fn());
            assert(out@ =~= s2 + enc_list(nv.children.take(i + 1), enc_id_fn()));
        }
        i = i + 1;
    }
    assert(nv.children.take(i as int) =~= nv.children);
    push_u64(&mut out, n.values.len() as u64);
    let ghost s3 = out@;
    let mut i: usize = 0;
    assert(s3 =~= s3 + enc_list(nv.values.take(0), enc_value_fn()));
    while i < n.values.len()
        invariant
            i <= n.values@.len(),
            nv == n@,
            out@ == s3 + enc_list(nv.values.take(i as int), enc_value_fn()),
            forall|j: int| 0 <= j < i ==> #[trigger] nv.values[j].len() <= u64::MAX,
        decreases n.values@.len() - i,
    {
        push_bytes(&mut out, n.values[i].as_slice());
        proof {
            lemma_enc_list_take(nv.values, i as int, enc_value_fn());
            assert(out@ =~= s3 + enc_list(nv.values.take(i + 1), enc_value_fn()));
        }
        i = i + 1;
    }
    assert(nv.values.take(i as int) =~= nv.values);
    push_opt(&mut out, n.next_leaf);
    push_opt(&mut out, n.prev_leaf);
    assert(out@ =~= encode_node(nv));
    out
}

// ---------------------------------------------------------------------------
// Reading
// ---------------------------------------------------------------------------

/// Wraps std's `String::from_utf8`. The contract claims what its
/// documentation says: it succeeds exactly on valid UTF-8, and then the
/// string's UTF-8 encoding is `bytes`.
#[verifier::external_body]
fn string_from_utf8(bytes: Vec<u8>) -> (r: Option<String>)
    ensures
        match r {
            Some(s) => encode_utf8(s@) == bytes@,
            None => !valid_utf8(bytes@),
        },
{
    String::from_utf8(bytes).ok()
}

fn read_u64(d: &[u8], p: usize) -> (r: Option<(u64, usize)>)
    ensures
        match r {
            Some((x, q)) => parse_u64(d@, p as int) == Some((x, q as int)),
            None => parse_u64(d@, p as int) is None,
        },
{
    if p <= d.len() && d.len() - p >= 8 {
        let s = vstd::slice::slice_subrange(d, p, p + 8);
        Some((u64_from_le_bytes(s), p + 8))
    } else {
        None
    }
}

fn read_bytes(d: &[u8], p: usize) -> (r: Option<(Vec<u8>, usize)>)
    ensures
        match r {
            Some((b, q)) => parse_bytes(d@, p as int) == Some((b@, q as int)),
            None => parse_bytes(d@, p as int) is None,
        },
{
    match read_u64(d, p) {
        None => None,
        Some((n, q)) => {
            if n <= (d.len() - q) as u64 {
                let e = q + n as usize;
                let s = vstd::slice::slice_subrange(d, q, e);
                Some((vstd::slice::slice_to_vec(s), e))
            } else {
                None
            }
        },
    }
}

fn read_tag(d: &[u8], p: usize) -> (r: Option<(u8, usize)>)
    ensures
        match r {
            Some((t, q)) => parse_tag(d@, p as int) == Some((t, q as int)),
            None => parse_tag(d@, p as int) is None,
        },
{
    if p >= d.len() || d.len() - p < 4 {
        return None;
    }
    if d[p + 1] != 0 || d[p + 2] != 0 || d[p + 3] != 0 {
        return None;
    }
    Some((d[p], p + 4))
}

fn read_key(d: &[u8], p: usize) -> (r: Option<(Key, usize)>)
    ensures
        match r {
            Some((k, q)) => parse_key(d@, p as int) == Some((k@, q as int)),
            None => parse_key(d@, p as int) is None,
        },
{
    let (t, p4) = match read_tag(d, p) {
        Some(x) => x,
        None => return None,
    };
    if t == 0 {
        match read_u64(d, p4) {
            Some((x, q)) => Some((Key::Integer(x as i64), q)),
            None => None,
        }
    } else if t == 1 {
        match read_bytes(d, p4) {
            Some((b, q)) => {
                let ghost bv = b@;
                match string_from_utf8(b) {
                    Some(s) => {
                        proof {
                            assert(decode_utf8(encode_utf8(s@)) == s@);
                        }
                        Some((Key::Text(s), q))
                    },
                    None => None,
                }
            },
            None => None,
        }
    } else if t == 2 {
        match read_bytes(d, p4) {
            Some((b, q)) => Some((Key::Bytes(b), q)),
            None => None,
        }
    } else {
        None
    }
}

fn read_opt(d: &[u8], p: usize) -> (r: Option<(Option<u64>, usize)>)
    ensures
        match r {
            Some((o, q)) => parse_opt(d@, p as int) == Some((o, q as int)),
            None => parse_opt(d@, p as int) is None,
        },
{
    if p >= d.len() {
        return None;
    }
    if d[p] == 0 {
        Some((None, p + 1))
    } else if d[p] == 1 {
        match read_u64(d, p + 1) {
            Some((x, q)) => Some((Some(x), q)),
            None => None,
        }
    } else {
        None
    }
}

fn read_keys(d: &[u8], p: usize, n: u64) -> (r: Option<(Vec<Key>, usize)>)
    ensures
        match r {
            Some((ks, q)) => parse_list(d@, p as int, n as nat, parse_key_fn()) == Some(
                (keys_view(ks@), q as int),
            ),
            None => parse_list(d@, p as int, n as nat, parse_key_fn()) is None,
        },
{
    let mut ks: Vec<Key> = Vec::new();
    let mut pos = p;
    let mut i: u64 = 0;
    assert(keys_view(ks@) =~= Seq::<KeyView>::empty());
    while i < n
        invariant
            i <= n,
            parse_list(d@, p as int, i as nat, parse_key_fn()) == Some((keys_view(ks@), pos as int)),
        decreases n - i,
    {
        match read_key(d, pos) {
            Some((k, q)) => {
                proof {
                    assert(keys_view(ks@.push(k)) =~= keys_view(ks@).push(k@));
                }
                ks.push(k);
                pos = q;
            },
            None => {
                proof {
                    lemma_parse_list_none_grows(
                        d@,
                        p as int,
                        (i + 1) as nat,
                        n as nat,
                        parse_key_fn(),
                    );
                }
                return None;
            },
        }
        i = i + 1;
    }
    Some((ks, pos))
}

fn read_ids(d: &[u8], p: usize, n: u64) -> (r: Option<(Vec<u64>, usize)>)
    ensures
        match r {
            Some((cs, q)) => parse_list(d@, p as int, n as nat, parse_id_fn()) == Some(
                (cs@, q as int),
            ),
            None => parse_list(d@, p as int, n as nat, parse_id_fn()) is None,
        },
{
    let mut cs: Vec<u64> = Vec::new();
    let mut pos = p;
    let mut i: u64 = 0;
    assert(cs@ =~= Seq::<u64>::empty());
    while i < n
        invariant
            i <= n,
            parse_list(d@, p as int, i as nat, parse_id_fn()) == Some((cs@, pos as int)),
        decreases n - i,
    {
        match read_u64(d, pos) {
            Some((x, q)) => {
                cs.push(x);
                pos = q;
            },
            None => {
                proof {
                    lemma_parse_list_none_grows(
                        d@,
                        p as int,
                        (i + 1) as nat,
                        n as nat,
                        parse_id_fn(),
                    );
                }
                return None;
            },
        }
        i = i + 1;
    }
    Some((cs, pos))
}

fn read_values(d: &[u8], p: usize, n: u64) -> (r: Option<(Vec<Vec<u8>>, usize)>)
    ensures
        match r {
            Some((vs, q)) => parse_list(d@, p as int, n as nat, parse_value_fn()) == Some(
                (values_view(vs@), q as int),
            ),
            None => parse_list(d@, p as int, n as nat, parse_value_fn()) is None,
        },
{
    let mut vs: Vec<Vec<u8>> = Vec::new();
    let mut pos = p;
    let mut i: u64 = 0;
    assert(values_view(vs@) =~= Seq::<Seq<u8>>::empty());
    while i < n
        invariant
            i <= n,
            parse_list(d@, p as int, i as nat, parse_value_fn()) == Some(
                (values_view(vs@), pos as int),
            ),
        decreases n - i,
    {
        match read_bytes(d, pos) {
            Some((b, q)) => {
                proof {
                    assert(values_view(vs@.push(b)) =~= values_view(vs@).push(b@));
                }
                vs.push(b);
                pos = q;
            },
            None => {
                proof {
                    lemma_parse_list_none_grows(
                        d@,
                        p as int,
                        (i + 1) as nat,
                        n as nat,
                        parse_value_fn(),
                    );
                }
                return None;
            },
        }
        i = i + 1;
    }
    Some((vs, pos))
}

/// Reads a node written in the page format.
pub fn decode_node_bytes(d: &[u8]) -> (r: Option<Node>)
    ensures
        match r {
            Some(n) => parse_node(d@) == Some(n@),
            None => parse_node(d@) is None,
        },
{
    let (tag, p0) = match read_tag(d, 0) {
        Some(x) => x,
        None => return None,
    };
    if tag != 0 && tag != 1 {
        return None;
    }
    let (nk, p1) = match read_u64(d, p0) {
        Some(x) => x,
        None => return None,
    };
    let (keys, p2) = match read_keys(d, p1, nk) {
        Some(x) => x,
        None => return None,
    };
    let (nc, p3) = match read_u64(d, p2) {
        Some(x) => x,
        None => return None,
    };
    let (children, p4) = match read_ids(d, p3, nc) {
        Some(x) => x,
        None => return None,
    };
    let (nv, p5) = match read_u64(d, p4) {
        Some(x) => x,
        None => return None,
    };
    let (values, p6) = match read_values(d, p5, nv) {
        Some(x) => x,
        None => return None,
    };
    let (next_leaf, p7) = match read_opt(d, p6) {
        Some(x) => x,
        None => return None,
    };
    let (prev_leaf, _p8) = match read_opt(d, p7) {
        Some(x) => x,
        None => return None,
    };
    let node_type = if tag == 1 {
        NodeType::Leaf
    } else {
        NodeType::Internal
    };
    Some(Node { node_type, keys, children, values, next_leaf, prev_leaf })
}

} // verus!
