//! B+Tree node definition.
use vstd::prelude::*;
pub use crate::key::Key;
use crate::key::KeyView;

verus! {

/// Value type: raw bytes.
pub type Value = Vec<u8>;

/// Record: a key-value pair.
#[derive(Debug, Clone, PartialEq, Eq)]
pub struct Record {
    pub key: Key,
    pub value: Value,
}

impl Record {
    pub fn new(key: Key, value: Value) -> (r: Self)
        ensures
            r.key == key,
            r.value == value,
    {
        Self { key, value }
    }
}

/// Node type.
#[derive(Debug, Clone, Copy, PartialEq, Eq, Structural)]
pub enum NodeType {
    Internal,
    Leaf,
}

/// B+Tree node: an internal node holds separator keys and child page ids,
/// a leaf holds keys with their values and the ids of its neighbour leaves.
#[derive(Debug, Clone)]
pub struct Node {
    pub node_type: NodeType,
    pub keys: Vec<Key>,
    pub children: Vec<u64>,
    pub values: Vec<Value>,
    pub next_leaf: Option<u64>,
    pub prev_leaf: Option<u64>,
}

/// The mathematical value of a node.
pub struct NodeView {
    pub is_leaf: bool,
    pub keys: Seq<KeyView>,
    pub children: Seq<u64>,
    pub values: Seq<Seq<u8>>,
    pub next_leaf: Option<u64>,
    pub prev_leaf: Option<u64>,
}

pub open spec fn keys_view(keys: Seq<Key>) -> Seq<KeyView> {
    keys.map_values(|k: Key| k@)
}

pub open spec fn values_view(values: Seq<Vec<u8>>) -> Seq<Seq<u8>> {
    values.map_values(|v: Vec<u8>| v@)
}

impl View for Node {
    type V = NodeView;

    open spec fn view(&self) -> NodeView {
        NodeView {
            is_leaf: self.node_type == NodeType::Leaf,
            keys: keys_view(self.keys@),
            children: self.children@,
            values: values_view(self.values@),
            next_leaf: self.next_leaf,
            prev_leaf: self.prev_leaf,
        }
    }
}

pub open spec fn empty_node(is_leaf: bool) -> NodeView {
    NodeView {
        is_leaf,
        keys: Seq::empty(),
        children: Seq::empty(),
        values: Seq::empty(),
        next_leaf: None,
        prev_leaf: None,
    }
}

impl Node {
    pub fn new_leaf() -> (r: Self)
        ensures
            r@ == empty_node(true),
    {
        let r = Node {
            node_type: NodeType::Leaf,
            keys: Vec::new(),
            children: Vec::new(),
            values: Vec::new(),
            next_leaf: None,
            prev_leaf: None,
        };
        assert(r@.keys =~= Seq::empty());
        assert(r@.values =~= Seq::empty());
        r
    }

    pub fn new_internal() -> (r: Self)
        ensures
            r@ == empty_node(false),
    {
        let r = Node {
            node_type: NodeType::Internal,
            keys: Vec::new(),
            children: Vec::new(),
            values: Vec::new(),
            next_leaf: None,
            prev_leaf: None,
        };
        assert(r@.keys =~= Seq::empty());
        assert(r@.values =~= Seq::empty());
        r
    }

    pub fn is_leaf(&self) -> (r: bool)
        ensures
            r == self@.is_leaf,
    {
        self.node_type == NodeType::Leaf
    }

    pub fn is_empty(&self) -> (r: bool)
        ensures
            r == (self@.keys.len() == 0),
    {
        self.keys.len() == 0
    }

    /// Whether the node needs a split: it holds at least `order - 1` keys.
    pub fn is_full(&self, order: usize) -> (r: bool)
        requires
            order >= 1,
        ensures
            r == (self@.keys.len() >= order - 1),
    {
        self.keys.len() >= order - 1
    }

    /// Number of keys.
    pub fn len(&self) -> (r: usize)
        ensures
            r == self@.keys.len(),
    {
        self.keys.len()
    }

    /// Whether the node holds fewer than `(order - 1) / 2` keys.
    pub fn is_minimal(&self, order: usize) -> (r: bool)
        requires
            order >= 1,
        ensures
            r == (self@.keys.len() < (order - 1) / 2),
    {
        self.keys.len() < (order - 1) / 2
    }
}

} // verus!
