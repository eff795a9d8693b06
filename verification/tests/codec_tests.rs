use btree6::codec::{decode_node_bytes, encode_node_bytes};
use btree6::key::Key;
use btree6::node::Node;

// bincode writes an enum variant as its index (u32) followed by its fields,
// and a tuple or struct as its fields one after another; these tuples have
// the same bytes as the nodes they stand for.

#[test]
fn integer_key_leaf_has_bincode_layout() {
    let mut node = Node::new_leaf();
    node.keys = vec![Key::Integer(-7), Key::Integer(300)];
    node.values = vec![b"a".to_vec(), vec![1, 2, 3]];
    node.next_leaf = Some(12);
    let same: (u32, Vec<(u32, i64)>, Vec<u64>, Vec<Vec<u8>>, Option<u64>, Option<u64>) =
        (1, vec![(0, -7), (0, 300)], vec![], vec![b"a".to_vec(), vec![1, 2, 3]], Some(12), None);
    let expected = bincode::serialize(&same).unwrap();
    assert_eq!(encode_node_bytes(&node), expected);
    let back = decode_node_bytes(&expected).unwrap();
    assert_eq!(back.keys, node.keys);
}

#[test]
fn text_key_internal_node_has_bincode_layout() {
    let mut node = Node::new_internal();
    node.keys = vec![Key::Text("héllo".to_string())];
    node.children = vec![4, 9];
    node.prev_leaf = Some(2);
    let same: (u32, Vec<(u32, String)>, Vec<u64>, Vec<Vec<u8>>, Option<u64>, Option<u64>) =
        (0, vec![(1, "héllo".to_string())], vec![4, 9], vec![], None, Some(2));
    assert_eq!(encode_node_bytes(&node), bincode::serialize(&same).unwrap());
}

#[test]
fn bytes_key_leaf_has_bincode_layout() {
    let mut node = Node::new_leaf();
    node.keys = vec![Key::Bytes(vec![0, 255]), Key::Bytes(vec![])];
    node.values = vec![vec![], vec![7]];
    let same: (u32, Vec<(u32, Vec<u8>)>, Vec<u64>, Vec<Vec<u8>>, Option<u64>, Option<u64>) =
        (1, vec![(2, vec![0, 255]), (2, vec![])], vec![], vec![vec![], vec![7]], None, None);
    let mut bytes = bincode::serialize(&same).unwrap();
    assert_eq!(encode_node_bytes(&node), bytes);
    // Bytes after the node are ignored on reading, as bincode ignores them.
    bytes.extend_from_slice(&[1, 2, 3]);
    let back = decode_node_bytes(&bytes).unwrap();
    assert_eq!(back.keys, node.keys);
    assert_eq!(back.values, node.values);
    let from_bincode: (u32, Vec<(u32, Vec<u8>)>, Vec<u64>, Vec<Vec<u8>>, Option<u64>, Option<u64>) =
        bincode::deserialize(&bytes).unwrap();
    assert_eq!(from_bincode, same);
}
