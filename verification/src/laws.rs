//! What holds of the tree across operations, stated over the views that the
//! operations' contracts use.
use vstd::prelude::*;
use vstd::utf8::encode_utf8;
use crate::key::{KeyView, key_lt, bytes_lt, lemma_key_order};
use crate::chain::keys_ascending;
use crate::tree::{lists_in_order, bounded, in_bounds};
use crate::page::{PageView, PageHeader, crc32, crc_register, checksum_input, be_u32, be_u64, lemma_crc_register_one_byte};

verus! {

/// Reading a key right after `insert` wrote it gives back the value written;
/// every other key keeps what it held.
pub proof fn law_get_after_insert(
    before: Map<KeyView, Seq<u8>>,
    after: Map<KeyView, Seq<u8>>,
    k: KeyView,
    v: Seq<u8>,
    other: KeyView,
)
    requires
        after == before.insert(k, v),
    ensures
        after.contains_key(k),
        after[k] == v,
        other != k ==> after.contains_key(other) == before.contains_key(other),
        other != k && before.contains_key(other) ==> after[other] == before[other],
{
}

/// After `delete` a key is gone; every other key keeps what it held.
pub proof fn law_get_after_delete(
    before: Map<KeyView, Seq<u8>>,
    after: Map<KeyView, Seq<u8>>,
    k: KeyView,
    other: KeyView,
)
    requires
        after == before.remove(k),
    ensures
        !after.contains_key(k),
        other != k ==> after.contains_key(other) == before.contains_key(other),
        other != k && before.contains_key(other) ==> after[other] == before[other],
{
}

/// `insert` adds one record for a new key and replaces the value of a key
/// the tree holds, so the count grows by one exactly when the key was new.
pub proof fn law_len_after_insert(before: Map<KeyView, Seq<u8>>, k: KeyView, v: Seq<u8>)
    requires
        before.dom().finite(),
    ensures
        before.contains_key(k) ==> before.insert(k, v).len() == before.len(),
        !before.contains_key(k) ==> before.insert(k, v).len() == before.len() + 1,
{
    if before.contains_key(k) {
        assert(before.insert(k, v).dom() =~= before.dom());
    }
}

/// `delete` removes one record exactly when it reports that it found the key.
pub proof fn law_len_after_delete(before: Map<KeyView, Seq<u8>>, k: KeyView)
    requires
        before.dom().finite(),
    ensures
        before.contains_key(k) ==> before.remove(k).len() == before.len() - 1,
        !before.contains_key(k) ==> before.remove(k).len() == before.len(),
{
    if !before.contains_key(k) {
        assert(before.remove(k).dom() =~= before.dom());
    }
}

/// Deleting a key just inserted into a tree that lacked it gives back the
/// tree's former contents.
pub proof fn law_delete_undoes_insert(before: Map<KeyView, Seq<u8>>, k: KeyView, v: Seq<u8>)
    requires
        !before.contains_key(k),
    ensures
        before.insert(k, v).remove(k) == before,
{
    assert(before.insert(k, v).remove(k) =~= before);
}

/// Inserting the same key twice keeps only the second value.
pub proof fn law_insert_overwrites(before: Map<KeyView, Seq<u8>>, k: KeyView, v1: Seq<u8>, v2: Seq<u8>)
    ensures
        before.insert(k, v1).insert(k, v2) == before.insert(k, v2),
{
    assert(before.insert(k, v1).insert(k, v2) =~= before.insert(k, v2));
}

/// Positions in a list ordered by strictly ascending keys: equal keys sit
/// at the same position.
proof fn lemma_ascending_index(es: Seq<(KeyView, Seq<u8>)>, i: int, j: int)
    requires
        keys_ascending(es),
        0 <= i < es.len(),
        0 <= j < es.len(),
        es[i].0 == es[j].0,
    ensures
        i == j,
{
    lemma_key_order();
    if i < j {
        assert(key_lt(es[i].0, es[j].0));
    } else if j < i {
        assert(key_lt(es[j].0, es[i].0));
    }
}

#[verifier::spinoff_prover]
proof fn lemma_same_prefix(m: Map<KeyView, Seq<u8>>, a: Seq<(KeyView, Seq<u8>)>, b: Seq<(KeyView, Seq<u8>)>, i: int)
    requires
        lists_in_order(m, a),
        lists_in_order(m, b),
        0 <= i <= a.len(),
        i <= b.len(),
    ensures
        forall|q: int| 0 <= q < i ==> #[trigger] a[q] == b[q],
    decreases i,
{
    lemma_key_order();
    if i > 0 {
        lemma_same_prefix(m, a, b, i - 1);
        let q = i - 1;
        let ka = a[q].0;
        let kb = b[q].0;
        assert(m.contains_key(ka));
        assert(m.contains_key(kb));
        let ja = choose|j: int| 0 <= j < b.len() && (#[trigger] b[j]).0 == ka;
        let jb = choose|j: int| 0 <= j < a.len() && (#[trigger] a[j]).0 == kb;
        // ka sits in b at ja: not before q (those equal a's, below ka), so at q or later
        if ja < q {
            assert(b[ja] == a[ja]);
            lemma_ascending_index(a, ja, q);
        }
        if jb < q {
            assert(a[jb] == b[jb]);
            lemma_ascending_index(b, jb, q);
        }
        if ka != kb {
            if key_lt(ka, kb) {
                assert(ja > q);
                assert(key_lt(b[q].0, b[ja].0));
            } else {
                assert(jb > q);
                assert(key_lt(a[q].0, a[jb].0));
            }
        }
        assert(a[q].1 == m[ka]);
        assert(b[q].1 == m[kb]);
    }
}

/// The records of a tree, listed by ascending key each once, come in one
/// order only: what `scan` and a cursor return is fixed by the contents.
pub proof fn law_listing_unique(m: Map<KeyView, Seq<u8>>, a: Seq<(KeyView, Seq<u8>)>, b: Seq<(KeyView, Seq<u8>)>)
    requires
        lists_in_order(m, a),
        lists_in_order(m, b),
    ensures
        a == b,
{
    lemma_key_order();
    if a.len() < b.len() {
        lemma_same_prefix(m, a, b, a.len() as int);
        let k = b[a.len() as int].0;
        assert(m.contains_key(k));
        let j = choose|j: int| 0 <= j < a.len() && (#[trigger] a[j]).0 == k;
        assert(a[j] == b[j]);
        lemma_ascending_index(b, j, a.len() as int);
    } else if b.len() < a.len() {
        lemma_same_prefix(m, a, b, b.len() as int);
        let k = a[b.len() as int].0;
        assert(m.contains_key(k));
        let j = choose|j: int| 0 <= j < b.len() && (#[trigger] b[j]).0 == k;
        assert(a[j] == b[j]);
        lemma_ascending_index(a, j, b.len() as int);
    } else {
        lemma_same_prefix(m, a, b, a.len() as int);
        assert(a =~= b);
    }
}

/// A listing in key order holds as many records as the contents: `scan`
/// returns `len()` records.
pub proof fn law_listing_len(m: Map<KeyView, Seq<u8>>, es: Seq<(KeyView, Seq<u8>)>)
    requires
        lists_in_order(m, es),
        m.dom().finite(),
    ensures
        es.len() == m.len(),
{
    let ks = es.map_values(|e: (KeyView, Seq<u8>)| e.0);
    assert forall|i: int, j: int| 0 <= i < ks.len() && 0 <= j < ks.len() && i != j implies ks[i] != ks[j] by {
        if ks[i] == ks[j] {
            lemma_ascending_index(es, i, j);
        }
    }
    ks.unique_seq_to_set();
    assert forall|k: KeyView| #[trigger] ks.to_set().contains(k) <==> m.dom().contains(k) by {
        if m.dom().contains(k) {
            let i = choose|i: int| 0 <= i < es.len() && (#[trigger] es[i]).0 == k;
            assert(ks[i] == k);
        }
        if ks.to_set().contains(k) {
            let i = choose|i: int| 0 <= i < ks.len() && ks[i] == k;
            assert(es[i].0 == k);
        }
    }
    assert(ks.to_set() =~= m.dom());
}

/// A range search over `[start, end]` with `start` above `end` finds nothing.
pub proof fn law_empty_range(m: Map<KeyView, Seq<u8>>, es: Seq<(KeyView, Seq<u8>)>, start: KeyView, end: KeyView)
    requires
        lists_in_order(bounded(m, start, end), es),
        key_lt(end, start),
    ensures
        es.len() == 0,
{
    lemma_key_order();
    if es.len() > 0 {
        let k = es[0].0;
        assert(bounded(m, start, end).contains_key(k));
        assert(in_bounds(k, start, end));
    }
}

/// A range search lists, in key order, exactly the records of the full
/// listing whose keys lie in `[start, end]`.
pub proof fn law_range_within_listing(
    m: Map<KeyView, Seq<u8>>,
    all: Seq<(KeyView, Seq<u8>)>,
    part: Seq<(KeyView, Seq<u8>)>,
    start: KeyView,
    end: KeyView,
)
    requires
        lists_in_order(m, all),
        lists_in_order(bounded(m, start, end), part),
    ensures
        forall|i: int| 0 <= i < part.len() ==> all.contains(#[trigger] part[i]),
        forall|i: int| 0 <= i < all.len() && in_bounds((#[trigger] all[i]).0, start, end) ==> part.contains(all[i]),
{
    assert forall|i: int| 0 <= i < part.len() implies all.contains(#[trigger] part[i]) by {
        let k = part[i].0;
        assert(bounded(m, start, end).contains_key(k));
        assert(m.contains_key(k));
        let j = choose|j: int| 0 <= j < all.len() && (#[trigger] all[j]).0 == k;
        assert(all[j] == part[i]);
    }
    assert forall|i: int| 0 <= i < all.len() && in_bounds((#[trigger] all[i]).0, start, end) implies part.contains(all[i]) by {
        let k = all[i].0;
        assert(bounded(m, start, end).contains_key(k));
        let j = choose|j: int| 0 <= j < part.len() && (#[trigger] part[j]).0 == k;
        assert(part[j] == all[i]);
    }
}

/// A page whose checksum was just updated passes the checksum check: the
/// check reads the same magic number, page id and data the update read.
pub proof fn law_checksum_after_update(before: PageView, after: PageView)
    requires
        after == (PageView {
            header: PageHeader { checksum: crc32(checksum_input(before)), ..before.header },
            ..before
        }),
    ensures
        crc32(checksum_input(after)) == after.header.checksum,
{
    assert(checksum_input(after) =~= checksum_input(before));
}

/// Two pages with the same stored checksum whose checksum inputs have one
/// length and differ in exactly one byte: if the first passes the check, the
/// second fails it.
proof fn lemma_checksum_input_one_byte(p: PageView, q: PageView, i: int)
    requires
        crc32(checksum_input(p)) == p.header.checksum,
        q.header.checksum == p.header.checksum,
        checksum_input(q).len() == checksum_input(p).len(),
        0 <= i < checksum_input(p).len(),
        checksum_input(q)[i] != checksum_input(p)[i],
        forall|j: int|
            0 <= j < checksum_input(p).len() && j != i ==> checksum_input(q)[j] == checksum_input(p)[j],
    ensures
        crc32(checksum_input(q)) != q.header.checksum,
{
    let a = checksum_input(p);
    let b = checksum_input(q);
    lemma_crc_register_one_byte(a, b, i);
    let ra = crc_register(a);
    let rb = crc_register(b);
    assert(ra != rb ==> ra ^ 0xFFFF_FFFFu32 != rb ^ 0xFFFF_FFFFu32) by (bit_vector);
}

/// A page whose checksum checks out fails the check once any one byte of
/// its data changes, a single flipped bit among such changes: CRC-32 tells
/// apart byte strings of one length that differ in one byte.
pub proof fn law_checksum_catches_changed_byte(p: PageView, q: PageView, i: int)
    requires
        crc32(checksum_input(p)) == p.header.checksum,
        q.header == p.header,
        q.data.len() == p.data.len(),
        0 <= i < p.data.len(),
        q.data[i] != p.data[i],
        forall|j: int| 0 <= j < p.data.len() && j != i ==> q.data[j] == p.data[j],
    ensures
        crc32(checksum_input(q)) != q.header.checksum,
{
    let a = checksum_input(p);
    let b = checksum_input(q);
    let head = 12int;
    assert(a.len() == b.len());
    assert forall|j: int| 0 <= j < a.len() && j != head + i implies b[j] == a[j] by {
        if j >= head {
            assert(a[j] == p.data[j - head]);
            assert(b[j] == q.data[j - head]);
        }
    }
    assert(a[head + i] == p.data[i]);
    assert(b[head + i] == q.data[i]);
    lemma_checksum_input_one_byte(p, q, head + i);
}

/// Flipping bit `b` of a 32-bit number changes exactly byte `3 - b / 8` of
/// its big-endian bytes.
proof fn lemma_be_u32_flip(x: u32, b: u32)
    requires
        b < 32,
    ensures
        be_u32(x ^ (1u32 << b))[3 - b / 8] != be_u32(x)[3 - b / 8],
        forall|j: int| 0 <= j < 4 && j != 3 - b / 8 ==> be_u32(x ^ (1u32 << b))[j] == be_u32(x)[j],
{
    let y = x ^ (1u32 << b);
    assert(b < 8 ==> (y as u8) != (x as u8) && (y >> 8u32) as u8 == (x >> 8u32) as u8 && (y >> 16u32) as u8
        == (x >> 16u32) as u8 && (y >> 24u32) as u8 == (x >> 24u32) as u8) by (bit_vector)
        requires
            y == x ^ (1u32 << b),
    ;
    assert(8 <= b < 16 ==> (y as u8) == (x as u8) && (y >> 8u32) as u8 != (x >> 8u32) as u8 && (y >> 16u32) as u8
        == (x >> 16u32) as u8 && (y >> 24u32) as u8 == (x >> 24u32) as u8) by (bit_vector)
        requires
            y == x ^ (1u32 << b),
    ;
    assert(16 <= b < 24 ==> (y as u8) == (x as u8) && (y >> 8u32) as u8 == (x >> 8u32) as u8 && (y >> 16u32) as u8
        != (x >> 16u32) as u8 && (y >> 24u32) as u8 == (x >> 24u32) as u8) by (bit_vector)
        requires
            y == x ^ (1u32 << b),
    ;
    assert(24 <= b < 32 ==> (y as u8) == (x as u8) && (y >> 8u32) as u8 == (x >> 8u32) as u8 && (y >> 16u32) as u8
        == (x >> 16u32) as u8 && (y >> 24u32) as u8 != (x >> 24u32) as u8) by (bit_vector)
        requires
            y == x ^ (1u32 << b),
    ;
}

/// Flipping bit `b` of a 64-bit number changes exactly byte `7 - b / 8` of
/// its big-endian bytes.
proof fn lemma_be_u64_flip(x: u64, b: u64)
    requires
        b < 64,
    ensures
        be_u64(x ^ (1u64 << b))[7 - b / 8] != be_u64(x)[7 - b / 8],
        forall|j: int| 0 <= j < 8 && j != 7 - b / 8 ==> be_u64(x ^ (1u64 << b))[j] == be_u64(x)[j],
{
    let y = x ^ (1u64 << b);
    assert(forall|s: u64| s < 64 && s % 8 == 0 && !(s <= b < s + 8) ==> (y >> s) as u8 == (x >> s) as u8)
        by (bit_vector)
        requires
            y == x ^ (1u64 << b),
            b < 64,
    ;
    assert((y >> (b / 8 * 8)) as u8 != (x >> (b / 8 * 8)) as u8) by (bit_vector)
        requires
            y == x ^ (1u64 << b),
            b < 64,
    ;
    assert(be_u64(y) =~= seq![
        (y >> 56u64) as u8,
        (y >> 48u64) as u8,
        (y >> 40u64) as u8,
        (y >> 32u64) as u8,
        (y >> 24u64) as u8,
        (y >> 16u64) as u8,
        (y >> 8u64) as u8,
        (y >> 0u64) as u8,
    ]) by {
        assert((y >> 0u64) == y) by (bit_vector);
    }
    assert(be_u64(x) =~= seq![
        (x >> 56u64) as u8,
        (x >> 48u64) as u8,
        (x >> 40u64) as u8,
        (x >> 32u64) as u8,
        (x >> 24u64) as u8,
        (x >> 16u64) as u8,
        (x >> 8u64) as u8,
        (x >> 0u64) as u8,
    ]) by {
        assert((x >> 0u64) == x) by (bit_vector);
    }
}

/// A page whose checksum checks out fails the check once one bit of its
/// magic number is flipped.
pub proof fn law_checksum_catches_flipped_magic_bit(p: PageView, q: PageView, b: u32)
    requires
        crc32(checksum_input(p)) == p.header.checksum,
        b < 32,
        q.header == (PageHeader { magic: p.header.magic ^ (1u32 << b), ..p.header }),
        q.data == p.data,
    ensures
        crc32(checksum_input(q)) != q.header.checksum,
{
    let a = checksum_input(p);
    let c = checksum_input(q);
    lemma_be_u32_flip(p.header.magic, b);
    let i = 3 - b / 8;
    assert forall|j: int| 0 <= j < a.len() && j != i implies c[j] == a[j] by {
        if j < 4 {
            assert(c[j] == be_u32(q.header.magic)[j]);
            assert(a[j] == be_u32(p.header.magic)[j]);
        } else {
            assert(c[j] == (be_u64(q.header.page_id) + q.data)[j - 4]);
            assert(a[j] == (be_u64(p.header.page_id) + p.data)[j - 4]);
        }
    }
    assert(c[i] == be_u32(q.header.magic)[i]);
    assert(a[i] == be_u32(p.header.magic)[i]);
    lemma_checksum_input_one_byte(p, q, i);
}

/// A page whose checksum checks out fails the check once one bit of its
/// page id is flipped.
pub proof fn law_checksum_catches_flipped_page_id_bit(p: PageView, q: PageView, b: u64)
    requires
        crc32(checksum_input(p)) == p.header.checksum,
        b < 64,
        q.header == (PageHeader { page_id: p.header.page_id ^ (1u64 << b), ..p.header }),
        q.data == p.data,
    ensures
        crc32(checksum_input(q)) != q.header.checksum,
{
    let a = checksum_input(p);
    let c = checksum_input(q);
    lemma_be_u64_flip(p.header.page_id, b);
    let i = 4 + 7 - b / 8;
    assert forall|j: int| 0 <= j < a.len() && j != i implies c[j] == a[j] by {
        if j < 4 {
            assert(c[j] == be_u32(q.header.magic)[j]);
            assert(a[j] == be_u32(p.header.magic)[j]);
        } else if j < 12 {
            assert(c[j] == be_u64(q.header.page_id)[j - 4]);
            assert(a[j] == be_u64(p.header.page_id)[j - 4]);
        } else {
            assert(c[j] == q.data[j - 12]);
            assert(a[j] == p.data[j - 12]);
        }
    }
    assert(c[i] == be_u64(q.header.page_id)[i - 4]);
    assert(a[i] == be_u64(p.header.page_id)[i - 4]);
    lemma_checksum_input_one_byte(p, q, i);
}

/// `a` comes before `b` in lexicographic order by byte value: the two agree
/// on their first `i` bytes, and then either both go on and `a`'s next byte
/// is the smaller number, or `a` ends while `b` goes on.
pub open spec fn precedes_lexically(a: Seq<u8>, b: Seq<u8>) -> bool {
    exists|i: int|
        #![trigger a.subrange(0, i)]
        0 <= i <= a.len() && i <= b.len() && a.subrange(0, i) == b.subrange(0, i) && ((i < a.len() && i < b.len()
            && a[i] < b[i]) || (i == a.len() && i < b.len()))
}

/// The order of byte strings is lexicographic by byte value, a proper
/// prefix first.
pub proof fn law_bytes_order(a: Seq<u8>, b: Seq<u8>)
    ensures
        bytes_lt(a, b) <==> precedes_lexically(a, b),
    decreases a.len(),
{
    if b.len() == 0 {
        if precedes_lexically(a, b) {
            let i = choose|i: int|
                #![trigger a.subrange(0, i)]
                0 <= i <= a.len() && i <= b.len() && a.subrange(0, i) == b.subrange(0, i) && ((i < a.len() && i
                    < b.len() && a[i] < b[i]) || (i == a.len() && i < b.len()));
            assert(false);
        }
    } else if a.len() == 0 {
        assert(a.subrange(0, 0) =~= b.subrange(0, 0));
    } else if a[0] != b[0] {
        assert(a.subrange(0, 0) =~= b.subrange(0, 0));
        if precedes_lexically(a, b) {
            let i = choose|i: int|
                #![trigger a.subrange(0, i)]
                0 <= i <= a.len() && i <= b.len() && a.subrange(0, i) == b.subrange(0, i) && ((i < a.len() && i
                    < b.len() && a[i] < b[i]) || (i == a.len() && i < b.len()));
            if i > 0 {
                assert(a.subrange(0, i)[0] == b.subrange(0, i)[0]);
            }
        }
    } else {
        let a1 = a.drop_first();
        let b1 = b.drop_first();
        law_bytes_order(a1, b1);
        if precedes_lexically(a1, b1) {
            let i = choose|i: int|
                #![trigger a1.subrange(0, i)]
                0 <= i <= a1.len() && i <= b1.len() && a1.subrange(0, i) == b1.subrange(0, i) && ((i < a1.len()
                    && i < b1.len() && a1[i] < b1[i]) || (i == a1.len() && i < b1.len()));
            assert(a.subrange(0, i + 1) =~= seq![a[0]] + a1.subrange(0, i));
            assert(b.subrange(0, i + 1) =~= seq![b[0]] + b1.subrange(0, i));
            assert(a.subrange(0, i + 1) == b.subrange(0, i + 1));
        }
        if precedes_lexically(a, b) {
            let i = choose|i: int|
                #![trigger a.subrange(0, i)]
                0 <= i <= a.len() && i <= b.len() && a.subrange(0, i) == b.subrange(0, i) && ((i < a.len() && i
                    < b.len() && a[i] < b[i]) || (i == a.len() && i < b.len()));
            assert(i > 0);
            assert(a1.subrange(0, i - 1) =~= a.subrange(0, i).drop_first());
            assert(b1.subrange(0, i - 1) =~= b.subrange(0, i).drop_first());
            assert(a1.subrange(0, i - 1) == b1.subrange(0, i - 1));
        }
    }
}

/// Keys order as the key type's derived order does: by kind first
/// (integers, then text, then byte strings); integers by value; text by
/// the lexicographic order of its UTF-8 bytes and byte strings by theirs,
/// byte values compared as numbers, with no folding of letter case.
pub proof fn law_key_order(a: KeyView, b: KeyView)
    ensures
        key_lt(a, b) <==> match a {
            KeyView::Integer(x) => match b {
                KeyView::Integer(y) => x < y,
                _ => true,
            },
            KeyView::Text(x) => match b {
                KeyView::Integer(_) => false,
                KeyView::Text(y) => precedes_lexically(encode_utf8(x), encode_utf8(y)),
                KeyView::Bytes(_) => true,
            },
            KeyView::Bytes(x) => match b {
                KeyView::Bytes(y) => precedes_lexically(x, y),
                _ => false,
            },
        },
{
    match (a, b) {
        (KeyView::Text(x), KeyView::Text(y)) => law_bytes_order(encode_utf8(x), encode_utf8(y)),
        (KeyView::Bytes(x), KeyView::Bytes(y)) => law_bytes_order(x, y),
        _ => {},
    }
}

} // verus!
