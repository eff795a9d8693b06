use btree6::key::{compare_keys, Cmp};
use btree6::node::{Key, Node, NodeType, Record};

#[test]
fn test_key_ordering() {
    let k1 = Key::Integer(1);
    let k2 = Key::Integer(10);
    assert!(k1 < k2);

    let t1 = Key::Text("apple".to_string());
    let t2 = Key::Text("banana".to_string());
    assert!(t1 < t2);
}

#[test]
fn test_node_new() {
    let leaf = Node::new_leaf();
    assert!(leaf.is_leaf());
    assert!(leaf.is_empty());

    let internal = Node::new_internal();
    assert!(!internal.is_leaf());
}

fn sample_keys() -> Vec<Key> {
    vec![
        Key::Integer(i64::MIN),
        Key::Integer(-3),
        Key::Integer(0),
        Key::Integer(42),
        Key::Integer(i64::MAX),
        Key::Text(String::new()),
        Key::Text("a".to_string()),
        Key::Text("ab".to_string()),
        Key::Text("b".to_string()),
        Key::Text("é".to_string()),
        Key::Text("z".to_string()),
        Key::Bytes(vec![]),
        Key::Bytes(vec![0]),
        Key::Bytes(vec![0, 0]),
        Key::Bytes(vec![1]),
        Key::Bytes(vec![255]),
    ]
}

#[test]
fn compare_keys_agrees_with_key_order() {
    let keys = sample_keys();
    for a in &keys {
        for b in &keys {
            let expected = if a < b {
                Cmp::Less
            } else if a == b {
                Cmp::Equal
            } else {
                Cmp::Greater
            };
            assert_eq!(compare_keys(a, b), expected, "{:?} vs {:?}", a, b);
        }
    }
}

#[test]
fn key_accessors_and_conversions() {
    assert_eq!(Key::Integer(5).as_i64(), Some(5));
    assert_eq!(Key::Text("x".to_string()).as_i64(), None);
    assert_eq!(Key::Text("hello".to_string()).as_str(), Some("hello"));
    assert_eq!(Key::Bytes(vec![1]).as_str(), None);
    assert_eq!(Key::from(7i64), Key::Integer(7));
    assert_eq!(Key::from("pear"), Key::Text("pear".to_string()));
    assert_eq!(Key::from("plum".to_string()), Key::Text("plum".to_string()));
    let k = Key::Bytes(vec![9, 8]);
    assert_eq!(k.duplicate(), k);
}

#[test]
fn node_fill_levels() {
    let mut leaf = Node::new_leaf();
    assert_eq!(leaf.node_type, NodeType::Leaf);
    for i in 0..3 {
        leaf.keys.push(Key::Integer(i));
        leaf.values.push(vec![i as u8]);
    }
    assert_eq!(leaf.len(), 3);
    assert!(!leaf.is_empty());
    // full once it holds order - 1 keys
    assert!(leaf.is_full(4));
    assert!(!leaf.is_full(5));
    // below the minimum while it holds fewer than (order - 1) / 2 keys
    assert!(!leaf.is_minimal(4));
    assert!(leaf.is_minimal(9));
    let r = Record::new(Key::Integer(1), b"one".to_vec());
    assert_eq!(r.key, Key::Integer(1));
    assert_eq!(r.value, b"one".to_vec());
}
