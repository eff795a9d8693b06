use btree6::page::Page;
use btree6::storage::file::{BTreeHeader, FileStore, FILE_MAGIC};
use btree6::{BPlusTree, Key, DEFAULT_PAGE_SIZE};
use btree6::storage::Storage;
use btree6::MemoryStorage;

#[test]
fn test_memory_storage() {
    let mut storage = MemoryStorage::new();
    let page_id = storage.alloc_page();
    assert_eq!(page_id, 0);

    let page = Page::new_leaf(page_id);
    storage.write_page(&page);

    let read = storage.read_page(page_id);
    assert!(read.is_some());
}

#[test]
fn test_alloc_multiple() {
    let mut storage = MemoryStorage::new();
    for i in 0..10u64 {
        assert_eq!(storage.alloc_page(), i);
    }
}

#[test]
fn read_gives_back_what_was_written() {
    let mut storage = MemoryStorage::with_capacity(4);
    let a = storage.alloc_page();
    let b = storage.alloc_page();
    assert_eq!(storage.page_count(), 2);
    storage.write_page(&Page::new_leaf(a));
    storage.write_page(&Page::new_internal(b));
    assert!(storage.read_page(a).unwrap().header.is_leaf());
    assert!(!storage.read_page(b).unwrap().header.is_leaf());
    assert!(storage.read_page(5).is_none());
    // a second write replaces the first
    storage.write_page(&Page::new_internal(a));
    assert!(!storage.read_page(a).unwrap().header.is_leaf());
    storage.flush();
    assert!(storage.read_page(b).is_some());
}

#[test]
fn clear_and_close_forget_everything() {
    let mut storage = MemoryStorage::default();
    let id = storage.alloc_page();
    storage.write_page(&Page::new_leaf(id));
    storage.clear();
    assert!(storage.read_page(id).is_none());
    assert_eq!(storage.alloc_page(), 0);
    storage.write_page(&Page::new_leaf(0));
    storage.close();
    assert!(storage.read_page(0).is_none());
    assert_eq!(storage.page_count(), 0);
}

#[test]
fn file_header_metadata() {
    let h = BTreeHeader::new(3, 10, 25);
    assert_eq!(h.magic, FILE_MAGIC);
    assert_eq!(h.version, 1);
    assert_eq!((h.root_page, h.page_count, h.size), (3, 10, 25));
}

#[test]
fn file_store_holds_the_slots_it_was_read_from() {
    let slots = vec![Some(Page::new_leaf(0)), None, Some(Page::new_internal(2))];
    let size = 3 * DEFAULT_PAGE_SIZE as u64 - 100;
    let mut store = FileStore::from_slots(slots, size);
    // Two whole slots and part of a third: ids go on from 2.
    assert_eq!(store.page_count(), 2);
    assert_eq!(store.read_page(0).map(|p| p.header.node_type), Some(1));
    assert!(store.read_page(1).is_none());
    assert_eq!(store.read_page(2).map(|p| p.header.node_type), Some(0));
    assert!(store.read_page(3).is_none());
    assert_eq!(store.alloc_page(), 2);
    assert_eq!(store.page_count(), 3);
    let mut page = Page::new_leaf(1);
    page.data = vec![7, 8, 9];
    store.write_page(&page);
    assert_eq!(store.read_page(1).map(|p| p.data), Some(vec![7, 8, 9]));
    store.flush();
    store.close();
    assert!(store.read_page(0).is_none());
    assert_eq!(store.page_count(), 3);
}

#[test]
fn tree_over_a_file_of_n_pages_starts_at_page_n() {
    let slots = vec![Some(Page::new_leaf(0)), Some(Page::new_leaf(1))];
    let store = FileStore::from_slots(slots, 2 * DEFAULT_PAGE_SIZE as u64);
    let mut tree = BPlusTree::open(store, 4);
    assert_eq!(tree.root_page(), 2);
    assert!(tree.is_empty());
    assert_eq!(tree.len(), 0);
    assert!(tree.scan().is_empty());
    assert_eq!(tree.get(&Key::Integer(1)), None);
    tree.insert(Key::Integer(1), b"one".to_vec());
    assert_eq!(tree.get(&Key::Integer(1)), Some(b"one".to_vec()));
}

#[test]
fn empty_file_store_starts_at_page_zero() {
    let store = FileStore::from_slots(Vec::new(), 0);
    let tree = BPlusTree::open(store, 4);
    assert_eq!(tree.root_page(), 0);
}
