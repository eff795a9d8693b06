//! Keys of the tree, their mathematical view and their total order.
use vstd::prelude::*;
use vstd::utf8::*;
use vstd::string::*;

verus! {

broadcast use {vstd::utf8::encode_utf8_decode_utf8, vstd::string::group_string_axioms};

/// Key type supporting integers, text and raw bytes.
///
/// Keys are ordered first by variant (`Integer < Text < Bytes`), then by
/// value: integers numerically, text by the lexicographic order of its
/// UTF-8 bytes, raw bytes lexicographically.
#[derive(Debug, Clone, PartialEq, Eq, PartialOrd, Ord, Hash)]
pub enum Key {
    Integer(i64),
    Text(String),
    Bytes(Vec<u8>),
}

/// The mathematical value of a key.
pub enum KeyView {
    Integer(i64),
    Text(Seq<char>),
    Bytes(Seq<u8>),
}

impl View for Key {
    type V = KeyView;

    open spec fn view(&self) -> KeyView {
        match self {
            Key::Integer(v) => KeyView::Integer(*v),
            Key::Text(s) => KeyView::Text(s@),
            Key::Bytes(b) => KeyView::Bytes(b@),
        }
    }
}

/// Result of comparing two keys.
#[derive(Debug, Clone, Copy, PartialEq, Eq, Structural)]
pub enum Cmp {
    Less,
    Equal,
    Greater,
}

/// Strict lexicographic order on byte strings (a proper prefix comes first).
pub open spec fn bytes_lt(a: Seq<u8>, b: Seq<u8>) -> bool
    decreases a.len(),
{
    if b.len() == 0 {
        false
    } else if a.len() == 0 {
        true
    } else if a[0] != b[0] {
        a[0] < b[0]
    } else {
        bytes_lt(a.drop_first(), b.drop_first())
    }
}

/// The strict total order on keys.
pub open spec fn key_lt(a: KeyView, b: KeyView) -> bool {
    match a {
        KeyView::Integer(x) => match b {
            KeyView::Integer(y) => x < y,
            _ => true,
        },
        KeyView::Text(x) => match b {
            KeyView::Integer(_) => false,
            KeyView::Text(y) => bytes_lt(encode_utf8(x), encode_utf8(y)),
            KeyView::Bytes(_) => true,
        },
        KeyView::Bytes(x) => match b {
            KeyView::Bytes(y) => bytes_lt(x, y),
            _ => false,
        },
    }
}

pub open spec fn key_le(a: KeyView, b: KeyView) -> bool {
    key_lt(a, b) || a == b
}

pub proof fn lemma_bytes_lt_irreflexive(a: Seq<u8>)
    ensures
        !bytes_lt(a, a),
    decreases a.len(),
{
    if a.len() > 0 {
        lemma_bytes_lt_irreflexive(a.drop_first());
    }
}

pub proof fn lemma_bytes_lt_transitive(a: Seq<u8>, b: Seq<u8>, c: Seq<u8>)
    requires
        bytes_lt(a, b),
        bytes_lt(b, c),
    ensures
        bytes_lt(a, c),
    decreases a.len(),
{
    if a.len() > 0 && b.len() > 0 && c.len() > 0 && a[0] == b[0] && b[0] == c[0] {
        lemma_bytes_lt_transitive(a.drop_first(), b.drop_first(), c.drop_first());
    }
}

pub proof fn lemma_bytes_lt_total(a: Seq<u8>, b: Seq<u8>)
    ensures
        a == b || bytes_lt(a, b) || bytes_lt(b, a),
    decreases a.len(),
{
    if a.len() > 0 && b.len() > 0 && a[0] == b[0] {
        lemma_bytes_lt_total(a.drop_first(), b.drop_first());
        if a.drop_first() == b.drop_first() {
            assert(a =~= seq![a[0]] + a.drop_first());
            assert(b =~= seq![b[0]] + b.drop_first());
        }
    } else if a.len() == 0 && b.len() == 0 {
        assert(a =~= b);
    }
}

pub proof fn lemma_bytes_lt_asymmetric(a: Seq<u8>, b: Seq<u8>)
    ensures
        !(bytes_lt(a, b) && bytes_lt(b, a)),
{
    if bytes_lt(a, b) && bytes_lt(b, a) {
        lemma_bytes_lt_transitive(a, b, a);
        lemma_bytes_lt_irreflexive(a);
    }
}

/// `key_lt` is a strict total order.
pub proof fn lemma_key_lt_irreflexive(a: KeyView)
    ensures
        !key_lt(a, a),
{
    match a {
        KeyView::Text(x) => lemma_bytes_lt_irreflexive(encode_utf8(x)),
        KeyView::Bytes(x) => lemma_bytes_lt_irreflexive(x),
        _ => {},
    }
}

pub proof fn lemma_key_lt_transitive(a: KeyView, b: KeyView, c: KeyView)
    requires
        key_lt(a, b),
        key_lt(b, c),
    ensures
        key_lt(a, c),
{
    match (a, b, c) {
        (KeyView::Text(x), KeyView::Text(y), KeyView::Text(z)) => {
            lemma_bytes_lt_transitive(encode_utf8(x), encode_utf8(y), encode_utf8(z));
        },
        (KeyView::Bytes(x), KeyView::Bytes(y), KeyView::Bytes(z)) => {
            lemma_bytes_lt_transitive(x, y, z);
        },
        _ => {},
    }
}

pub proof fn lemma_key_lt_total(a: KeyView, b: KeyView)
    ensures
        a == b || key_lt(a, b) || key_lt(b, a),
{
    match (a, b) {
        (KeyView::Text(x), KeyView::Text(y)) => {
            lemma_bytes_lt_total(encode_utf8(x), encode_utf8(y));
            if encode_utf8(x) == encode_utf8(y) {
                assert(decode_utf8(encode_utf8(x)) == x);
                assert(decode_utf8(encode_utf8(y)) == y);
            }
        },
        (KeyView::Bytes(x), KeyView::Bytes(y)) => {
            lemma_bytes_lt_total(x, y);
        },
        _ => {},
    }
}

pub proof fn lemma_key_lt_asymmetric(a: KeyView, b: KeyView)
    ensures
        !(key_lt(a, b) && key_lt(b, a)),
{
    if key_lt(a, b) && key_lt(b, a) {
        lemma_key_lt_transitive(a, b, a);
        lemma_key_lt_irreflexive(a);
    }
}

/// The order facts used throughout the tree proofs, for all keys at once.
pub proof fn lemma_key_order()
    ensures
        forall|a: KeyView| !#[trigger] key_lt(a, a),
        forall|a: KeyView, b: KeyView, c: KeyView|
            #[trigger] key_lt(a, b) && #[trigger] key_lt(b, c) ==> key_lt(a, c),
        forall|a: KeyView, b: KeyView| a == b || #[trigger] key_lt(a, b) || #[trigger] key_lt(b, a),
{
    assert forall|a: KeyView| !#[trigger] key_lt(a, a) by {
        lemma_key_lt_irreflexive(a);
    }
    assert forall|a: KeyView, b: KeyView, c: KeyView|
        #[trigger] key_lt(a, b) && #[trigger] key_lt(b, c) implies key_lt(a, c) by {
        lemma_key_lt_transitive(a, b, c);
    }
    assert forall|a: KeyView, b: KeyView| a == b || #[trigger] key_lt(a, b) || #[trigger] key_lt(
        b,
        a,
    ) by {
        lemma_key_lt_total(a, b);
    }
}

/// Compares two byte strings lexicographically.
pub fn compare_bytes(a: &[u8], b: &[u8]) -> (r: Cmp)
    ensures
        (r == Cmp::Less) == bytes_lt(a@, b@),
        (r == Cmp::Equal) == (a@ == b@),
        (r == Cmp::Greater) == bytes_lt(b@, a@),
{
    proof {
        lemma_bytes_lt_asymmetric(a@, b@);
        lemma_bytes_lt_irreflexive(a@);
    }
    let mut i: usize = 0;
    assert(a@.skip(0) =~= a@);
    assert(b@.skip(0) =~= b@);
    while i < a.len() && i < b.len()
        invariant
            i <= a@.len(),
            i <= b@.len(),
            a@.subrange(0, i as int) == b@.subrange(0, i as int),
            bytes_lt(a@, b@) == bytes_lt(a@.skip(i as int), b@.skip(i as int)),
            bytes_lt(b@, a@) == bytes_lt(b@.skip(i as int), a@.skip(i as int)),
        decreases a@.len() - i,
    {
        if a[i] != b[i] {
            if a[i] < b[i] {
                return Cmp::Less;
            } else {
                return Cmp::Greater;
            }
        }
        assert(a@.skip(i as int).drop_first() =~= a@.skip(i + 1));
        assert(b@.skip(i as int).drop_first() =~= b@.skip(i + 1));
        assert(a@.subrange(0, i + 1) =~= a@.subrange(0, i as int).push(a@[i as int]));
        assert(b@.subrange(0, i + 1) =~= b@.subrange(0, i as int).push(b@[i as int]));
        i = i + 1;
    }
    if a.len() == b.len() {
        assert(a@ =~= a@.subrange(0, i as int));
        assert(b@ =~= b@.subrange(0, i as int));
        Cmp::Equal
    } else if a.len() < b.len() {
        assert(a@ != b@);
        Cmp::Less
    } else {
        assert(a@ != b@);
        Cmp::Greater
    }
}

/// Compares two keys in the order of `key_lt`.
pub fn compare_keys(a: &Key, b: &Key) -> (r: Cmp)
    ensures
        (r == Cmp::Less) == key_lt(a@, b@),
        (r == Cmp::Equal) == (a@ == b@),
        (r == Cmp::Greater) == key_lt(b@, a@),
{
    proof {
        lemma_key_lt_asymmetric(a@, b@);
        lemma_key_lt_irreflexive(a@);
    }
    match (a, b) {
        (Key::Integer(x), Key::Integer(y)) => {
            if *x < *y {
                Cmp::Less
            } else if *x == *y {
                Cmp::Equal
            } else {
                Cmp::Greater
            }
        },
        (Key::Integer(_), _) => Cmp::Less,
        (Key::Text(_), Key::Integer(_)) => Cmp::Greater,
        (Key::Text(x), Key::Text(y)) => {
            let xb = x.as_str().as_bytes();
            let yb = y.as_str().as_bytes();
            let r = compare_bytes(xb, yb);
            proof {
                if xb@ == yb@ {
                    assert(decode_utf8(encode_utf8(x@)) == x@);
                    assert(decode_utf8(encode_utf8(y@)) == y@);
                }
            }
            r
        },
        (Key::Text(_), Key::Bytes(_)) => Cmp::Less,
        (Key::Bytes(x), Key::Bytes(y)) => compare_bytes(x.as_slice(), y.as_slice()),
        (Key::Bytes(_), _) => Cmp::Greater,
    }
}

impl Key {
    /// The integer held by an `Integer` key.
    pub fn as_i64(&self) -> (r: Option<i64>)
        ensures
            r == (match self@ {
                KeyView::Integer(v) => Some(v),
                _ => None,
            }),
    {
        match self {
            Key::Integer(v) => Some(*v),
            _ => None,
        }
    }

    /// The text held by a `Text` key.
    pub fn as_str(&self) -> (r: Option<&str>)
        ensures
            r is Some <==> self@ is Text,
            r matches Some(s) ==> self@ == KeyView::Text(s@),
    {
        match self {
            Key::Text(s) => Some(s.as_str()),
            _ => None,
        }
    }

    /// A copy of the key with the same value.
    pub fn duplicate(&self) -> (r: Key)
        ensures
            r@ == self@,
    {
        match self {
            Key::Integer(v) => Key::Integer(*v),
            Key::Text(s) => Key::Text(s.clone()),
            Key::Bytes(b) => Key::Bytes(copy_bytes(b)),
        }
    }
}

/// A copy of a byte vector.
pub fn copy_bytes(v: &Vec<u8>) -> (r: Vec<u8>)
    ensures
        r@ == v@,
{
    let r = v.clone();
    assert(r@ =~= v@);
    r
}

impl From<i64> for Key {
    fn from(v: i64) -> (r: Self) {
        Key::Integer(v)
    }
}

impl vstd::std_specs::convert::FromSpecImpl<i64> for Key {
    open spec fn obeys_from_spec() -> bool {
        true
    }

    open spec fn from_spec(v: i64) -> Key {
        Key::Integer(v)
    }
}

impl From<String> for Key {
    fn from(s: String) -> (r: Self) {
        Key::Text(s)
    }
}

impl vstd::std_specs::convert::FromSpecImpl<String> for Key {
    open spec fn obeys_from_spec() -> bool {
        true
    }

    open spec fn from_spec(s: String) -> Key {
        Key::Text(s)
    }
}

impl From<&str> for Key {
    /// A text key holding a copy of `s`.
    fn from(s: &str) -> (r: Self)
        ensures
            r@ == KeyView::Text(s@),
    {
        Key::Text(s.to_string())
    }
}

impl vstd::std_specs::convert::FromSpecImpl<&str> for Key {
    /// The copy is a new `String`, equal to `s` in its characters only, so
    /// `from` promises the key's view (above), not this value.
    open spec fn obeys_from_spec() -> bool {
        false
    }

    open spec fn from_spec(s: &str) -> Key {
        Key::Text(choose|t: String| t@ == s@)
    }
}

} // verus!
