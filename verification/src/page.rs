//! Page structure: a header, item pointers and the stored node's bytes.
use vstd::prelude::*;
use crate::node::{Node, NodeView};
use crate::codec::{encode_node, node_fits, holds_at, encode_node_bytes, decode_node_bytes, lemma_node_roundtrip, lemma_node_sound};

verus! {

/// Magic number of a page ("BTV6").
pub const PAGE_MAGIC: u32 = 0x42545636;

/// Size of a page in bytes.
pub const DEFAULT_PAGE_SIZE: usize = 8192;

/// Page header.
#[derive(Debug, Clone, Copy)]
pub struct PageHeader {
    pub magic: u32,
    pub page_id: u64,
    pub page_size: u32,
    pub node_type: u8,
    pub is_valid: u8,
    pub free_space: u16,
    pub item_count: u16,
    pub lsn: u64,
    pub checksum: u32,
}

/// Item ID - pointer to data in the page.
#[derive(Debug, Clone, Copy)]
pub struct ItemId {
    pub offset: u16,
    pub length: u16,
}

/// Size in bytes of a `PageHeader` in memory.
pub const PAGE_HEADER_SIZE: usize = 40;

/// Size in bytes of an `ItemId` in memory.
pub const ITEM_ID_SIZE: usize = 4;

/// Offset of the first free byte of an empty page: one header and one item pointer.
pub open spec fn initial_free_space() -> u16 {
    44
}

/// The header of a fresh page.
pub open spec fn new_header(page_id: u64, node_type: u8) -> PageHeader {
    PageHeader {
        magic: PAGE_MAGIC,
        page_id,
        page_size: 8192,
        node_type,
        is_valid: 1,
        free_space: initial_free_space(),
        item_count: 0,
        lsn: 0,
        checksum: 0,
    }
}

impl PageHeader {
    pub fn new(page_id: u64, node_type: u8) -> (r: Self)
        ensures
            r == new_header(page_id, node_type),
    {
        let page_size: u32 = 8192;
        let free_space = (PAGE_HEADER_SIZE + ITEM_ID_SIZE) as u16;
        PageHeader {
            magic: PAGE_MAGIC,
            page_id,
            page_size,
            node_type,
            is_valid: 1,
            free_space,
            item_count: 0,
            lsn: 0,
            checksum: 0,
        }
    }

    pub fn is_leaf(&self) -> (r: bool)
        ensures
            r == (self.node_type == 1),
    {
        self.node_type == 1
    }
}

impl ItemId {
    pub fn new(offset: u16, length: u16) -> (r: Self)
        ensures
            r.offset == offset,
            r.length == length,
    {
        Self { offset, length }
    }
}

/// Page structure.
#[derive(Debug, Clone)]
pub struct Page {
    pub header: PageHeader,
    pub items: Vec<ItemId>,
    pub data: Vec<u8>,
}

/// The mathematical value of a page.
pub struct PageView {
    pub header: PageHeader,
    pub items: Seq<ItemId>,
    pub data: Seq<u8>,
}

impl View for Page {
    type V = PageView;

    open spec fn view(&self) -> PageView {
        PageView { header: self.header, items: self.items@, data: self.data@ }
    }
}

/// The offset of the first free byte after the header, the item pointers and the data,
/// kept in 16 bits.
pub open spec fn free_space_offset(items: nat, data: nat) -> u16 {
    (40 + 4 * items + data) as u16
}

/// The bytes that the page checksum covers: the magic number and the page id,
/// both big-endian, then the data.
pub open spec fn checksum_input(p: PageView) -> Seq<u8> {
    be_u32(p.header.magic) + be_u64(p.header.page_id) + p.data
}

pub open spec fn be_u32(x: u32) -> Seq<u8> {
    seq![(x >> 24u32) as u8, (x >> 16u32) as u8, (x >> 8u32) as u8, x as u8]
}

pub open spec fn be_u64(x: u64) -> Seq<u8> {
    seq![
        (x >> 56u64) as u8,
        (x >> 48u64) as u8,
        (x >> 40u64) as u8,
        (x >> 32u64) as u8,
        (x >> 24u64) as u8,
        (x >> 16u64) as u8,
        (x >> 8u64) as u8,
        x as u8,
    ]
}

/// One bit of the reflected CRC-32 division: the register shifts right and
/// takes the polynomial 0xEDB88320 in when the bit shifted out was set.
pub open spec fn crc_shift(c: u32) -> u32 {
    if c & 1u32 == 1u32 {
        (c >> 1u32) ^ 0xEDB8_8320u32
    } else {
        c >> 1u32
    }
}

/// The register after one more byte: the byte enters the low bits and eight
/// bits of division follow.
pub open spec fn crc_byte(c: u32, b: u8) -> u32 {
    crc_shift(crc_shift(crc_shift(crc_shift(crc_shift(crc_shift(crc_shift(crc_shift(c ^ (b as u32)))))))))
}

/// The CRC-32 register after `bytes`, started at all ones.
pub open spec fn crc_register(bytes: Seq<u8>) -> u32
    decreases bytes.len(),
{
    if bytes.len() == 0 {
        0xFFFF_FFFFu32
    } else {
        crc_byte(crc_register(bytes.drop_last()), bytes.last())
    }
}

/// The CRC-32 (IEEE 802.3) checksum of a byte string: the final register,
/// inverted.
pub open spec fn crc32(bytes: Seq<u8>) -> u32 {
    crc_register(bytes) ^ 0xFFFF_FFFFu32
}

/// One bit of division loses nothing: distinct registers stay distinct.
proof fn lemma_crc_shift_injective(x: u32, y: u32)
    requires
        x != y,
    ensures
        crc_shift(x) != crc_shift(y),
{
    assert(x != y ==> crc_shift(x) != crc_shift(y)) by (bit_vector);
}

/// Distinct register-and-byte inputs give distinct registers after the byte.
proof fn lemma_crc_byte_injective(c1: u32, x: u8, c2: u32, y: u8)
    requires
        c1 ^ (x as u32) != c2 ^ (y as u32),
    ensures
        crc_byte(c1, x) != crc_byte(c2, y),
{
    lemma_crc_shift_injective(c1 ^ (x as u32), c2 ^ (y as u32));
    let a1 = crc_shift(c1 ^ (x as u32));
    let b1 = crc_shift(c2 ^ (y as u32));
    lemma_crc_shift_injective(a1, b1);
    let a2 = crc_shift(a1);
    let b2 = crc_shift(b1);
    lemma_crc_shift_injective(a2, b2);
    let a3 = crc_shift(a2);
    let b3 = crc_shift(b2);
    lemma_crc_shift_injective(a3, b3);
    let a4 = crc_shift(a3);
    let b4 = crc_shift(b3);
    lemma_crc_shift_injective(a4, b4);
    let a5 = crc_shift(a4);
    let b5 = crc_shift(b4);
    lemma_crc_shift_injective(a5, b5);
    let a6 = crc_shift(a5);
    let b6 = crc_shift(b5);
    lemma_crc_shift_injective(a6, b6);
    let a7 = crc_shift(a6);
    let b7 = crc_shift(b6);
    lemma_crc_shift_injective(a7, b7);
}

/// Byte strings of one length that differ in exactly one byte leave
/// different CRC-32 registers.
pub proof fn lemma_crc_register_one_byte(a: Seq<u8>, b: Seq<u8>, i: int)
    requires
        a.len() == b.len(),
        0 <= i < a.len(),
        a[i] != b[i],
        forall|j: int| 0 <= j < a.len() && j != i ==> a[j] == b[j],
    ensures
        crc_register(a) != crc_register(b),
    decreases a.len(),
{
    let n = a.len();
    let c1 = crc_register(a.drop_last());
    let c2 = crc_register(b.drop_last());
    if i == n - 1 {
        assert(a.drop_last() =~= b.drop_last());
        let x = a.last();
        let y = b.last();
        assert(x != y);
        assert(x != y ==> c1 ^ (x as u32) != c1 ^ (y as u32)) by (bit_vector);
        lemma_crc_byte_injective(c1, x, c2, y);
    } else {
        lemma_crc_register_one_byte(a.drop_last(), b.drop_last(), i);
        let x = a.last();
        assert(b.last() == x);
        assert(c1 != c2 ==> c1 ^ (x as u32) != c2 ^ (x as u32)) by (bit_vector);
        lemma_crc_byte_injective(c1, x, c2, x);
    }
}

/// One bit of division on the register, as `crc_shift` states it.
fn crc_shift_step(c: u32) -> (r: u32)
    ensures
        r == crc_shift(c),
{
    if c & 1u32 == 1u32 {
        (c >> 1u32) ^ 0xEDB8_8320u32
    } else {
        c >> 1u32
    }
}

/// The CRC-32 (IEEE) of `bytes`, computed a bit at a time.
fn crc32_of(bytes: &[u8]) -> (r: u32)
    ensures
        r == crc32(bytes@),
{
    let mut reg: u32 = 0xFFFF_FFFFu32;
    let mut i: usize = 0;
    while i < bytes.len()
        invariant
            i <= bytes@.len(),
            reg == crc_register(bytes@.subrange(0, i as int)),
        decreases bytes@.len() - i,
    {
        let b: u8 = bytes[i];
        let mut c: u32 = reg ^ (b as u32);
        c = crc_shift_step(c);
        c = crc_shift_step(c);
        c = crc_shift_step(c);
        c = crc_shift_step(c);
        c = crc_shift_step(c);
        c = crc_shift_step(c);
        c = crc_shift_step(c);
        c = crc_shift_step(c);
        proof {
            let s = bytes@.subrange(0, i + 1);
            assert(s.drop_last() =~= bytes@.subrange(0, i as int));
            assert(s.last() == b);
        }
        reg = c;
        i = i + 1;
    }
    assert(bytes@.subrange(0, bytes@.len() as int) =~= bytes@);
    reg ^ 0xFFFF_FFFFu32
}

fn push_be_u32(out: &mut Vec<u8>, x: u32)
    ensures
        final(out)@ == old(out)@ + be_u32(x),
{
    out.push((x >> 24u32) as u8);
    out.push((x >> 16u32) as u8);
    out.push((x >> 8u32) as u8);
    out.push(x as u8);
    assert(final(out)@ =~= old(out)@ + be_u32(x));
}

fn push_be_u64(out: &mut Vec<u8>, x: u64)
    ensures
        final(out)@ == old(out)@ + be_u64(x),
{
    out.push((x >> 56u64) as u8);
    out.push((x >> 48u64) as u8);
    out.push((x >> 40u64) as u8);
    out.push((x >> 32u64) as u8);
    out.push((x >> 24u64) as u8);
    out.push((x >> 16u64) as u8);
    out.push((x >> 8u64) as u8);
    out.push(x as u8);
    assert(final(out)@ =~= old(out)@ + be_u64(x));
}

/// A fresh page with no items and no data.
pub open spec fn empty_page(page_id: u64, node_type: u8) -> PageView {
    PageView { header: new_header(page_id, node_type), items: Seq::empty(), data: Seq::empty() }
}

/// The page's stored checksum matches its magic number, page id and data.
pub open spec fn checksum_ok(p: PageView) -> bool {
    crc32(checksum_input(p)) == p.header.checksum
}

/// The root page a new in-memory tree starts with: an empty leaf whose
/// checksum was never computed.
pub open spec fn unsummed_empty_leaf(id: u64) -> PageView {
    let d = encode_node(crate::node::empty_node(true));
    PageView {
        header: PageHeader { free_space: free_space_offset(0, d.len()), ..new_header(id, 1) },
        items: Seq::empty(),
        data: d,
    }
}

/// The node stored in a page's data: the data starts with the node's
/// encoding; bytes after it are ignored.
pub open spec fn stored_node(data: Seq<u8>, n: NodeView) -> bool {
    node_fits(n) && holds_at(data, 0, encode_node(n))
}

impl Page {
    pub fn new_leaf(page_id: u64) -> (r: Self)
        ensures
            r@ == empty_page(page_id, 1),
    {
        let r = Page { header: PageHeader::new(page_id, 1), items: Vec::new(), data: Vec::new() };
        assert(r@.items =~= Seq::<ItemId>::empty());
        assert(r@.data =~= Seq::<u8>::empty());
        r
    }

    pub fn new_internal(page_id: u64) -> (r: Self)
        ensures
            r@ == empty_page(page_id, 0),
    {
        let r = Page { header: PageHeader::new(page_id, 0), items: Vec::new(), data: Vec::new() };
        assert(r@.items =~= Seq::<ItemId>::empty());
        assert(r@.data =~= Seq::<u8>::empty());
        r
    }

    /// Stores the node in the page's data and updates the free-space offset.
    pub fn set_node(&mut self, node: &Node)
        ensures
            final(self)@.data == encode_node(node@),
            stored_node(final(self)@.data, node@),
            final(self)@.items == old(self)@.items,
            final(self)@.header == (PageHeader {
                free_space: free_space_offset(old(self)@.items.len(), final(self)@.data.len()),
                ..old(self)@.header
            }),
    {
        self.data = encode_node_bytes(node);
        assert(self@.data.subrange(0, self@.data.len() as int) =~= self@.data);
        self.update_free_space();
    }

    /// The node stored in the page's data: `Some` exactly when the data
    /// starts with the encoding of a node, and then that node.
    pub fn get_node(&self) -> (r: Option<Node>)
        ensures
            r matches Some(n) ==> stored_node(self@.data, n@),
            forall|m: NodeView| stored_node(self@.data, m) ==> (r matches Some(n) && n@ == m),
    {
        let r = decode_node_bytes(self.data.as_slice());
        proof {
            if r is Some {
                lemma_node_sound(self@.data);
            }
            assert forall|m: NodeView| stored_node(self@.data, m) implies (r matches Some(n)
                && n@ == m) by {
                lemma_node_roundtrip(self@.data, m);
            }
        }
        r
    }

    /// Sets the free-space offset to the end of the header, item pointers and data.
    pub fn update_free_space(&mut self)
        ensures
            final(self)@.items == old(self)@.items,
            final(self)@.data == old(self)@.data,
            final(self)@.header == (PageHeader {
                free_space: free_space_offset(old(self)@.items.len(), old(self)@.data.len()),
                ..old(self)@.header
            }),
    {
        let items_len = self.items.len() as u128;
        let data_len = self.data.len() as u128;
        assert(items_len <= u64::MAX && data_len <= u64::MAX);
        let header_size = PAGE_HEADER_SIZE as u128;
        let item_size = ITEM_ID_SIZE as u128;
        assert(header_size == 40 && item_size == 4);
        let data_end: u128 = header_size + items_len * item_size + data_len;
        self.header.free_space = #[verifier::truncate] (data_end as u16);
    }

    /// The bytes the checksum covers.
    fn checksum_bytes(&self) -> (r: Vec<u8>)
        ensures
            r@ == checksum_input(self@),
    {
        let mut out: Vec<u8> = Vec::new();
        push_be_u32(&mut out, self.header.magic);
        push_be_u64(&mut out, self.header.page_id);
        let mut d = vstd::slice::slice_to_vec(self.data.as_slice());
        out.append(&mut d);
        assert(out@ =~= checksum_input(self@));
        out
    }

    /// Stores the CRC-32 of the magic number, page id and data in the header.
    pub fn update_checksum(&mut self)
        ensures
            final(self)@ == (PageView {
                header: PageHeader { checksum: crc32(checksum_input(old(self)@)), ..old(self)@.header },
                ..old(self)@
            }),
            checksum_ok(final(self)@),
    {
        let bytes = self.checksum_bytes();
        self.header.checksum = crc32_of(bytes.as_slice());
        assert(checksum_input(self@) =~= checksum_input(old(self)@));
    }

    /// Whether the stored checksum matches the magic number, page id and data.
    pub fn verify_checksum(&self) -> (r: bool)
        ensures
            r == (crc32(checksum_input(self@)) == self@.header.checksum),
    {
        let bytes = self.checksum_bytes();
        crc32_of(bytes.as_slice()) == self.header.checksum
    }

    /// Whether the page carries the magic number and the valid flag.
    pub fn is_valid(&self) -> (r: bool)
        ensures
            r == (self@.header.magic == PAGE_MAGIC && self@.header.is_valid == 1),
    {
        self.header.magic == PAGE_MAGIC && self.header.is_valid == 1
    }

    /// Remaining free space.
    pub fn free_space(&self) -> (r: usize)
        requires
            self@.header.free_space <= self@.header.page_size,
        ensures
            r == self@.header.page_size - self@.header.free_space,
    {
        (self.header.page_size as usize) - (self.header.free_space as usize)
    }

    /// A copy of the page.
    pub fn duplicate(&self) -> (r: Page)
        ensures
            r@ == self@,
    {
        let r = Page {
            header: self.header,
            items: vstd::slice::slice_to_vec(self.items.as_slice()),
            data: vstd::slice::slice_to_vec(self.data.as_slice()),
        };
        r
    }
}

impl Default for Page {
    /// An empty leaf page with id 0.
    fn default() -> (r: Self)
        ensures
            r@ == empty_page(0, 1),
    {
        Self::new_leaf(0)
    }
}

} // verus!
