use btree6::{BPlusTree, Cursor, Key, MemoryStorage, Record, Storage};
use std::collections::BTreeMap;

fn key(v: i64) -> Key {
    Key::Integer(v)
}

fn val(s: &str) -> Vec<u8> {
    s.as_bytes().to_vec()
}

#[test]
fn test_insert_and_search() {
    let mut tree = BPlusTree::memory(4);
    tree.insert(key(10), val("Alice"));
    tree.insert(key(20), val("Bob"));
    tree.insert(key(5), val("Carol"));

    assert_eq!(tree.get(&key(10)), Some(val("Alice")));
    assert_eq!(tree.get(&key(20)), Some(val("Bob")));
    assert_eq!(tree.get(&key(5)), Some(val("Carol")));
    assert_eq!(tree.get(&key(99)), None);
}

#[test]
fn test_insert_many() {
    let mut tree = BPlusTree::memory(4);
    for i in 0..20i64 {
        tree.insert(key(i), val("x"));
    }
    assert_eq!(tree.len(), 20);
    for i in 0..20i64 {
        assert!(tree.get(&key(i)).is_some());
    }
}

#[test]
fn test_range_search() {
    let mut tree = BPlusTree::memory(4);
    for i in 1..=10i64 {
        tree.insert(key(i), val("v"));
    }
    let results = tree.range(&key(3), &key(7));
    let keys: Vec<i64> = results
        .iter()
        .map(|r| if let Key::Integer(v) = r.key { v } else { panic!() })
        .collect();
    assert_eq!(keys, vec![3, 4, 5, 6, 7]);
}

#[test]
fn test_text_key() {
    let mut tree = BPlusTree::memory(4);
    tree.insert(Key::Text("banana".into()), val("fruit"));
    tree.insert(Key::Text("apple".into()), val("also fruit"));
    assert_eq!(tree.get(&Key::Text("banana".into())), Some(val("fruit")));
}

fn int_keys(records: &[Record]) -> Vec<i64> {
    records.iter().map(|r| r.key.as_i64().unwrap()).collect()
}

#[test]
fn delete_removes_one_key() {
    let mut tree = BPlusTree::memory(4);
    for i in 1..=10i64 {
        tree.insert(key(i), val("v"));
    }
    assert!(tree.delete(&key(5)));
    assert_eq!(tree.get(&key(5)), None);
    assert_eq!(tree.len(), 9);
    assert!(!tree.delete(&key(5)));
    assert_eq!(tree.len(), 9);
    assert_eq!(int_keys(&tree.scan()), vec![1, 2, 3, 4, 6, 7, 8, 9, 10]);
}

#[test]
fn insert_of_a_present_key_updates_it() {
    let mut tree = BPlusTree::memory(4);
    tree.insert(key(1), val("old"));
    tree.insert(key(1), val("new"));
    assert_eq!(tree.get(&key(1)), Some(val("new")));
    assert_eq!(tree.len(), 1);
}

#[test]
fn updates_over_existing_keys_keep_the_count() {
    // initial keys 10, 20, 5, then 0..20: twenty-one distinct keys
    let mut tree = BPlusTree::memory(4);
    tree.insert(key(10), val("Alice"));
    tree.insert(key(20), val("Bob"));
    tree.insert(key(5), val("Carol"));
    for i in 0..20i64 {
        tree.insert(key(i), val("x"));
    }
    assert_eq!(tree.len(), 21);
    assert_eq!(tree.get(&key(10)), Some(val("x")));
    assert_eq!(tree.get(&key(20)), Some(val("Bob")));
}

#[test]
fn scan_lists_records_in_key_order() {
    let mut tree = BPlusTree::memory(4);
    tree.insert(key(3), val("c"));
    tree.insert(key(1), val("a"));
    tree.insert(key(2), val("b"));
    let records = tree.scan();
    assert_eq!(int_keys(&records), vec![1, 2, 3]);
    assert_eq!(records[0].value, val("a"));
    assert_eq!(records[2].value, val("c"));
    let empty: BPlusTree<MemoryStorage> = BPlusTree::memory(4);
    let mut empty = empty;
    assert!(empty.scan().is_empty());
    assert!(empty.is_empty());
}

#[test]
fn range_edges() {
    let mut tree = BPlusTree::memory(4);
    for i in (0..40i64).map(|i| i * 2) {
        tree.insert(key(i), val("v"));
    }
    // bounds that fall between keys
    assert_eq!(int_keys(&tree.range(&key(3), &key(9))), vec![4, 6, 8]);
    // start above end
    assert!(tree.range(&key(9), &key(3)).is_empty());
    // a single key
    assert_eq!(int_keys(&tree.range(&key(10), &key(10))), vec![10]);
    // past the last key
    assert!(tree.range(&key(100), &key(200)).is_empty());
    // everything
    assert_eq!(tree.range(&key(-5), &key(500)).len(), 40);
    // keys of other kinds order after integers
    assert!(tree.range(&Key::Text("a".into()), &Key::Bytes(vec![255])).is_empty());
}

#[test]
fn cursor_walks_in_key_order() {
    let mut tree = BPlusTree::memory(4);
    for i in [5i64, 1, 9, 3, 7, 2, 8, 4, 6, 0] {
        tree.insert(key(i), vec![i as u8]);
    }
    let mut seen = Vec::new();
    {
        let mut cursor = Cursor::new(&mut tree);
        while let Some(r) = cursor.next() {
            seen.push(r.key.as_i64().unwrap());
            assert_eq!(r.value, vec![r.key.as_i64().unwrap() as u8]);
        }
        assert!(cursor.next().is_none());
    }
    assert_eq!(seen, (0..10).collect::<Vec<i64>>());

    let mut from = Vec::new();
    {
        let mut cursor = Cursor::from_key(&mut tree, &key(6));
        while let Some(r) = cursor.next() {
            from.push(r.key.as_i64().unwrap());
        }
    }
    // the cursor starts at the leaf holding 6 and runs to the end
    assert!(from.contains(&6));
    assert_eq!(*from.last().unwrap(), 9);
    assert!(from.windows(2).all(|w| w[0] < w[1]));
    let start = 10 - from.len() as i64;
    assert_eq!(from, (start..10).collect::<Vec<i64>>());

    let mut empty = BPlusTree::memory(4);
    let mut cursor = Cursor::new(&mut empty);
    assert!(cursor.next().is_none());
}

#[test]
fn open_over_a_store_builds_an_empty_tree() {
    let mut tree = BPlusTree::open(MemoryStorage::new(), 4);
    assert!(tree.is_empty());
    assert_eq!(tree.root_page(), 0);
    tree.insert(key(1), val("one"));
    tree.flush();
    assert_eq!(tree.get(&key(1)), Some(val("one")));
    let first = tree.first_leaf();
    assert_eq!(tree.find_leaf(&key(1)), first);
}

#[test]
fn root_splits_and_collapses() {
    let mut tree = BPlusTree::memory(4);
    let first_root = tree.root_page();
    for i in 0..50i64 {
        tree.insert(key(i), val("v"));
    }
    assert_ne!(tree.root_page(), first_root);
    for i in 0..50i64 {
        assert!(tree.delete(&key(i)));
    }
    assert!(tree.is_empty());
    assert!(tree.scan().is_empty());
    for i in 0..50i64 {
        assert_eq!(tree.get(&key(i)), None);
    }
}

#[test]
fn open_memory_keeps_the_given_fields() {
    let tree = BPlusTree::open_memory(8, 3, 5);
    assert_eq!(tree.root_page(), 3);
    assert_eq!(tree.len(), 5);
}

/// A small deterministic generator for mixed workloads.
struct Lcg(u64);

impl Lcg {
    fn next(&mut self) -> u64 {
        self.0 = self.0.wrapping_mul(6364136223846793005).wrapping_add(1442695040888963407);
        self.0 >> 33
    }
}

fn check_against_model(order: usize, seed: u64, rounds: usize, span: u64) {
    let mut tree = BPlusTree::memory(order);
    let mut model: BTreeMap<i64, Vec<u8>> = BTreeMap::new();
    let mut rng = Lcg(seed);
    for step in 0..rounds {
        let k = (rng.next() % span) as i64;
        if rng.next() % 3 == 0 {
            let was = model.remove(&k).is_some();
            assert_eq!(tree.delete(&key(k)), was, "delete {} at step {}", k, step);
        } else {
            let v = format!("{}:{}", k, step).into_bytes();
            model.insert(k, v.clone());
            tree.insert(key(k), v);
        }
        assert_eq!(tree.len(), model.len());
    }
    for k in 0..span as i64 {
        assert_eq!(tree.get(&key(k)), model.get(&k).cloned(), "get {}", k);
    }
    let scanned: Vec<(i64, Vec<u8>)> = tree
        .scan()
        .into_iter()
        .map(|r| (r.key.as_i64().unwrap(), r.value))
        .collect();
    let expected: Vec<(i64, Vec<u8>)> = model.iter().map(|(k, v)| (*k, v.clone())).collect();
    assert_eq!(scanned, expected);
    let lo = (span / 4) as i64;
    let hi = (span / 2) as i64;
    let ranged: Vec<i64> = int_keys(&tree.range(&key(lo), &key(hi)));
    let expected_range: Vec<i64> = model.range(lo..=hi).map(|(k, _)| *k).collect();
    assert_eq!(ranged, expected_range);
}

#[test]
fn mixed_workload_order_3() {
    check_against_model(3, 1, 600, 80);
}

#[test]
fn mixed_workload_order_4() {
    check_against_model(4, 2, 800, 120);
}

#[test]
fn mixed_workload_order_5() {
    check_against_model(5, 3, 800, 150);
}

#[test]
fn mixed_workload_order_8() {
    check_against_model(8, 4, 1500, 400);
}

#[test]
fn mixed_key_kinds_sort_by_kind_then_value() {
    let mut tree = BPlusTree::memory(4);
    tree.insert(Key::Bytes(vec![2]), val("b2"));
    tree.insert(Key::Text("pear".into()), val("t"));
    tree.insert(key(-1), val("i"));
    tree.insert(Key::Bytes(vec![1, 9]), val("b1"));
    tree.insert(Key::Text("apple".into()), val("t2"));
    let keys: Vec<Key> = tree.scan().into_iter().map(|r| r.key).collect();
    assert_eq!(
        keys,
        vec![
            key(-1),
            Key::Text("apple".into()),
            Key::Text("pear".into()),
            Key::Bytes(vec![1, 9]),
            Key::Bytes(vec![2]),
        ]
    );
}

#[test]
fn deleting_a_new_key_restores_the_contents() {
    let mut tree = BPlusTree::memory(3);
    for i in 0..30i64 {
        tree.insert(key(i * 3), val("v"));
    }
    let before: Vec<(Key, Vec<u8>)> = tree.scan().into_iter().map(|r| (r.key, r.value)).collect();
    tree.insert(key(31), val("new"));
    assert_eq!(tree.get(&key(31)), Some(val("new")));
    assert_eq!(tree.len(), 31);
    assert!(tree.delete(&key(31)));
    let after: Vec<(Key, Vec<u8>)> = tree.scan().into_iter().map(|r| (r.key, r.value)).collect();
    assert_eq!(before, after);
    assert_eq!(tree.len(), 30);
}

#[test]
fn range_is_the_part_of_the_scan_within_bounds() {
    let mut tree = BPlusTree::memory(5);
    for i in (0..60i64).rev() {
        tree.insert(key(i * 7 % 61), vec![i as u8]);
    }
    let all = tree.scan();
    assert_eq!(all.len(), tree.len());
    let part = tree.range(&key(10), &key(40));
    let expected: Vec<Record> = all
        .into_iter()
        .filter(|r| r.key >= key(10) && r.key <= key(40))
        .collect();
    assert_eq!(part.len(), expected.len());
    for (a, b) in part.iter().zip(expected.iter()) {
        assert_eq!(a.key, b.key);
        assert_eq!(a.value, b.value);
    }
}

#[test]
fn root_leaf_splits_on_the_insert_that_fills_it() {
    let mut tree = BPlusTree::memory(4);
    tree.insert(key(1), val("a"));
    tree.insert(key(2), val("b"));
    // Two keys fit in a leaf of a tree of order 4: the root stays page 0.
    assert_eq!(tree.root_page(), 0);
    assert_eq!(tree.first_leaf(), 0);
    // Updating a present key never splits.
    tree.insert(key(2), val("bb"));
    assert_eq!(tree.root_page(), 0);
    // The third key fills the leaf: it splits into pages 0 and 1 and the
    // new root takes the next page id.
    tree.insert(key(3), val("c"));
    assert_eq!(tree.root_page(), 2);
    assert_eq!(tree.first_leaf(), 0);
    assert_eq!(tree.find_leaf(&key(1)), 0);
    assert_eq!(tree.find_leaf(&key(2)), 1);
    assert_eq!(tree.find_leaf(&key(3)), 1);
    assert_eq!(tree.get(&key(2)), Some(val("bb")));
}

#[test]
fn root_collapses_onto_its_only_child() {
    let mut tree = BPlusTree::memory(4);
    tree.insert(key(1), val("a"));
    tree.insert(key(2), val("b"));
    tree.insert(key(3), val("c"));
    assert_eq!(tree.root_page(), 2);
    // Leaf 1 keeps one key, the minimum for order 4: nothing moves.
    assert!(tree.delete(&key(2)));
    assert_eq!(tree.root_page(), 2);
    assert_eq!(tree.find_leaf(&key(3)), 1);
    // Leaf 1 empties and merges into leaf 0; the root is left with one child
    // and gives way to it.
    assert!(tree.delete(&key(3)));
    assert_eq!(tree.root_page(), 0);
    assert_eq!(tree.first_leaf(), 0);
    assert_eq!(tree.get(&key(1)), Some(val("a")));
    assert_eq!(tree.len(), 1);
    // A missing key changes nothing.
    assert!(!tree.delete(&key(9)));
    assert_eq!(tree.root_page(), 0);
    assert_eq!(tree.len(), 1);
}

#[test]
fn a_tree_that_counts_no_record_lists_nothing() {
    // The root page named here was never written: with a count of zero no
    // page is read.
    let mut tree = BPlusTree::open_memory(4, 7, 0);
    assert!(tree.scan().is_empty());
    {
        let mut cursor = Cursor::new(&mut tree);
        assert!(cursor.next().is_none());
    }
    let mut cursor = Cursor::from_key(&mut tree, &key(3));
    assert!(cursor.next().is_none());
}

#[test]
fn leaves_after_the_first_split_hold_the_lower_and_upper_halves() {
    let mut tree = BPlusTree::memory(4);
    tree.insert(key(1), val("a"));
    tree.insert(key(2), val("b"));
    tree.insert(key(3), val("c"));
    let keys_of = |tree: &mut BPlusTree<MemoryStorage>, id: u64| {
        tree.storage.read_page(id).unwrap().get_node().unwrap().keys
    };
    let l1 = tree.find_leaf(&key(1));
    let l2 = tree.find_leaf(&key(2));
    let l3 = tree.find_leaf(&key(3));
    assert_eq!(keys_of(&mut tree, l1), vec![key(1)]);
    assert_eq!(keys_of(&mut tree, l2), vec![key(2), key(3)]);
    assert_eq!(keys_of(&mut tree, l3), vec![key(2), key(3)]);
    let first = tree.first_leaf();
    assert_eq!(first, 0);
    assert_eq!(keys_of(&mut tree, first), vec![key(1)]);
}
