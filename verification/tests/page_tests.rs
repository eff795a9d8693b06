use btree6::key::Key;
use btree6::node::Node;
use btree6::page::{ItemId, Page, PageHeader, DEFAULT_PAGE_SIZE, ITEM_ID_SIZE, PAGE_HEADER_SIZE, PAGE_MAGIC};

#[test]
fn test_page_header() {
    let header = PageHeader::new(1, 1);
    assert_eq!(header.page_id, 1);
    assert!(header.is_leaf());
}

#[test]
fn test_page_serialize_node() {
    let mut page = Page::new_leaf(0);
    let node = Node::new_leaf();
    page.set_node(&node);
    assert!(!page.data.is_empty());

    let restored = page.get_node().unwrap();
    assert!(restored.is_leaf());
}

#[test]
fn test_checksum() {
    let mut page = Page::new_leaf(1);
    let node = Node::new_leaf();
    page.set_node(&node);
    page.update_checksum();
    assert!(page.verify_checksum());
}

#[test]
fn layout_sizes_match_the_constants() {
    assert_eq!(std::mem::size_of::<PageHeader>(), PAGE_HEADER_SIZE);
    assert_eq!(std::mem::size_of::<ItemId>(), ITEM_ID_SIZE);
}

#[test]
fn fresh_header_fields() {
    let h = PageHeader::new(9, 0);
    assert_eq!(h.magic, PAGE_MAGIC);
    assert_eq!(h.page_size as usize, DEFAULT_PAGE_SIZE);
    assert_eq!(h.free_space, 44);
    assert_eq!(h.item_count, 0);
    assert_eq!(h.checksum, 0);
    assert!(!h.is_leaf());
    let item = ItemId::new(3, 4);
    assert_eq!((item.offset, item.length), (3, 4));
}

fn full_leaf() -> Node {
    let mut node = Node::new_leaf();
    node.keys = vec![Key::Integer(-7), Key::Text("héllo".to_string()), Key::Bytes(vec![0, 255, 3])];
    node.values = vec![b"a".to_vec(), vec![], vec![1, 2, 3, 4]];
    node.next_leaf = Some(12);
    node.prev_leaf = None;
    node
}

#[test]
fn node_round_trips_through_page() {
    let mut page = Page::new_internal(4);
    let mut inner = Node::new_internal();
    inner.keys = vec![Key::Integer(10), Key::Integer(20)];
    inner.children = vec![1, 2, 3];
    page.set_node(&inner);
    let back = page.get_node().unwrap();
    assert!(!back.is_leaf());
    assert_eq!(back.keys, inner.keys);
    assert_eq!(back.children, inner.children);

    let leaf = full_leaf();
    page.set_node(&leaf);
    let back = page.get_node().unwrap();
    assert!(back.is_leaf());
    assert_eq!(back.keys, leaf.keys);
    assert_eq!(back.values, leaf.values);
    assert_eq!(back.next_leaf, Some(12));
    assert_eq!(back.prev_leaf, None);
}

#[test]
fn free_space_tracks_the_data() {
    let mut page = Page::new_leaf(2);
    page.set_node(&full_leaf());
    let expected = PAGE_HEADER_SIZE + page.items.len() * ITEM_ID_SIZE + page.data.len();
    assert_eq!(page.header.free_space as usize, expected);
    assert_eq!(page.free_space(), DEFAULT_PAGE_SIZE - expected);
    page.update_free_space();
    assert_eq!(page.header.free_space as usize, expected);
}

#[test]
fn garbage_data_decodes_to_nothing() {
    let mut page = Page::new_leaf(0);
    page.data = vec![7, 7, 7];
    assert!(page.get_node().is_none());
    page.data = vec![];
    assert!(page.get_node().is_none());
}

#[test]
fn invalid_utf8_text_key_decodes_to_nothing() {
    let mut page = Page::new_leaf(0);
    let mut node = Node::new_leaf();
    node.keys = vec![Key::Text("ab".to_string())];
    node.values = vec![vec![]];
    page.set_node(&node);
    let pos = page.data.windows(2).position(|w| w == b"ab").unwrap();
    page.data[pos] = 0xff;
    assert!(page.get_node().is_none());
}

#[test]
fn checksum_covers_magic_page_id_and_data() {
    let mut page = Page::new_leaf(77);
    page.set_node(&full_leaf());
    page.update_checksum();
    let mut bytes = Vec::new();
    bytes.extend_from_slice(&PAGE_MAGIC.to_be_bytes());
    bytes.extend_from_slice(&77u64.to_be_bytes());
    bytes.extend_from_slice(&page.data);
    assert_eq!(page.header.checksum, crc32fast::hash(&bytes));
    assert!(page.verify_checksum());

    let mut corrupted = page.duplicate();
    corrupted.data[0] ^= 1;
    assert!(!corrupted.verify_checksum());
    let mut moved = page.duplicate();
    moved.header.page_id = 78;
    assert!(!moved.verify_checksum());
}

#[test]
fn validity_flag_and_magic() {
    let mut page = Page::default();
    assert!(page.is_valid());
    assert_eq!(page.header.page_id, 0);
    page.header.is_valid = 0;
    assert!(!page.is_valid());
    let mut other = Page::new_leaf(1);
    other.header.magic = 0;
    assert!(!other.is_valid());
}

#[test]
fn every_flipped_data_bit_fails_the_checksum() {
    let mut page = Page::new_leaf(5);
    page.set_node(&full_leaf());
    page.update_checksum();
    assert!(page.verify_checksum());
    for i in 0..page.data.len() {
        for bit in 0..8u8 {
            let mut flipped = page.duplicate();
            flipped.data[i] ^= 1u8 << bit;
            assert!(!flipped.verify_checksum(), "byte {} bit {}", i, bit);
        }
    }
}

#[test]
fn checksum_is_the_ieee_crc32_of_the_header_fields_and_data() {
    // An empty data string: the checksum covers only the magic number and
    // the page id, big-endian.
    let mut page = Page::new_leaf(0);
    page.update_checksum();
    let mut expected: u32 = 0xFFFF_FFFF;
    let mut input = Vec::new();
    input.extend_from_slice(&PAGE_MAGIC.to_be_bytes());
    input.extend_from_slice(&0u64.to_be_bytes());
    for b in input {
        expected ^= b as u32;
        for _ in 0..8 {
            expected = if expected & 1 == 1 { (expected >> 1) ^ 0xEDB8_8320 } else { expected >> 1 };
        }
    }
    assert_eq!(page.header.checksum, expected ^ 0xFFFF_FFFF);
}

#[test]
fn empty_leaf_page_layout() {
    // An empty leaf takes 30 bytes: a 4-byte node-type tag, three 8-byte
    // list lengths and two 1-byte absent links; after the 40-byte header the
    // data ends at byte 70.
    let mut page = Page::new_leaf(0);
    page.set_node(&Node::new_leaf());
    assert_eq!(page.data.len(), 30);
    assert_eq!(page.header.free_space, 70);
    assert_eq!(page.get_node().map(|n| n.keys.len()), Some(0));
}

#[test]
fn node_followed_by_other_bytes_still_decodes() {
    let mut page = Page::new_leaf(0);
    page.set_node(&full_leaf());
    page.data.extend_from_slice(&[9, 9, 9, 9]);
    let back = page.get_node().unwrap();
    assert_eq!(back.keys, full_leaf().keys);
    assert_eq!(back.values, full_leaf().values);
    assert_eq!(back.next_leaf, Some(12));
    assert_eq!(back.prev_leaf, None);
}

#[test]
fn every_flipped_magic_or_page_id_bit_fails_the_checksum() {
    let mut page = Page::new_leaf(0x0123_4567_89ab_cdef);
    page.set_node(&full_leaf());
    page.update_checksum();
    assert!(page.verify_checksum());
    for bit in 0..32u32 {
        let mut flipped = page.duplicate();
        flipped.header.magic ^= 1u32 << bit;
        assert!(!flipped.verify_checksum(), "magic bit {}", bit);
    }
    for bit in 0..64u64 {
        let mut flipped = page.duplicate();
        flipped.header.page_id ^= 1u64 << bit;
        assert!(!flipped.verify_checksum(), "page id bit {}", bit);
    }
}
