//! A cursor that walks a tree's records in key order, leaf after leaf.
use vstd::prelude::*;
use crate::key::{Key, KeyView, key_lt, copy_bytes};
use crate::node::Record;
use crate::storage::Storage;
use crate::tree::{BPlusTree, lists_in_order};
use crate::chain::leaf_entries;

verus! {

/// A cursor over the records of a tree, borrowed for the cursor's lifetime.
pub struct Cursor<'a, S: Storage> {
    tree: &'a mut BPlusTree<S>,
    current_page: Option<u64>,
    index_in_page: usize,
    done: bool,
    /// The position of `current_page` among the tree's leaves.
    leaf_index: Ghost<int>,
}

impl<'a, S: Storage> Cursor<'a, S> {
    /// The cursor is done, or points into a well-formed tree, at a leaf and
    /// a record of it.
    pub closed spec fn wf(&self) -> bool {
        let ls = self.tree.leaf_pages();
        &&& !self.done ==> {
            &&& self.tree.wf()
            &&& 0 <= self.leaf_index@ < ls.len()
            &&& self.current_page == Some(ls[self.leaf_index@])
            &&& self.index_in_page <= self.tree.node_at(ls[self.leaf_index@]).keys.len()
        }
    }

    /// What the tree under the cursor holds.
    pub closed spec fn tree_view(&self) -> Map<KeyView, Seq<u8>> {
        self.tree@
    }

    /// The records the tree lists in key order.
    pub closed spec fn tree_records(&self) -> Seq<(KeyView, Seq<u8>)> {
        self.tree.records()
    }

    /// The records the cursor has yet to yield, in order.
    pub closed spec fn remaining(&self) -> Seq<(KeyView, Seq<u8>)> {
        if self.done {
            Seq::empty()
        } else {
            let es = self.tree.records();
            es.subrange(
                self.tree.records_before(self.leaf_index@).len() + self.index_in_page,
                es.len() as int,
            )
        }
    }

    /// A cursor at the first record of the tree; a tree that counts no
    /// record gives a cursor with nothing to yield, whatever its pages hold.
    #[verifier::spinoff_prover]
    pub fn new(tree: &'a mut BPlusTree<S>) -> (r: Self)
        requires
            old(tree).wf() || old(tree).size_spec() == 0,
        ensures
            r.wf(),
            r.tree_view() == old(tree)@,
            old(tree).wf() ==> r.remaining() == r.tree_records(),
            old(tree).wf() ==> lists_in_order(old(tree)@, r.remaining()),
            old(tree).size_spec() == 0 ==> r.remaining().len() == 0,
    {
        let ghost t0 = *tree;
        proof {
            if t0.wf() {
                t0.lemma_leaf_pages();
                t0.lemma_records();
            }
        }
        let is_empty = tree.is_empty();
        let current_page = if is_empty {
            None
        } else {
            Some(tree.first_leaf())
        };
        proof {
            t0.lemma_same_state(&*tree);
            if is_empty && t0.wf() {
                assert(t0.records().len() == 0) by {
                    if t0.records().len() > 0 {
                        assert(t0@.contains_key(t0.records()[0].0));
                        assert(t0@.dom().contains(t0.records()[0].0));
                    }
                }
                assert(t0.records() =~= Seq::<(KeyView, Seq<u8>)>::empty());
            } else if !is_empty {
                assert(tree.records_before(0).len() == 0);
                assert(tree.records().subrange(0, tree.records().len() as int) =~= tree.records());
            }
        }
        Cursor { tree, current_page, index_in_page: 0, done: is_empty, leaf_index: Ghost(0) }
    }

    /// A cursor at the first record of the leaf that holds `key`; the records
    /// of the leaves before it all have keys below `key`.
    #[verifier::spinoff_prover]
    pub fn from_key(tree: &'a mut BPlusTree<S>, key: &Key) -> (r: Self)
        requires
            old(tree).wf() || old(tree).size_spec() == 0,
        ensures
            r.wf(),
            r.tree_view() == old(tree)@,
            r.tree_records() == old(tree).records(),
            old(tree).size_spec() == 0 ==> r.remaining().len() == 0,
            old(tree).wf() && old(tree)@.len() == 0 ==> r.remaining().len() == 0,
            old(tree).wf() && old(tree)@.len() > 0 ==> r.remaining() == old(tree).records().subrange(
                old(tree).records().len() - r.remaining().len(),
                old(tree).records().len() as int,
            ),
            old(tree).wf() ==> forall|q: int|
                0 <= q < old(tree).records().len() - r.remaining().len() ==> key_lt(
                    (#[trigger] old(tree).records()[q]).0,
                    key@,
                ),
            old(tree).wf() && old(tree)@.len() > 0 ==> exists|i: int|
                0 <= i < old(tree).leaf_pages().len() && old(tree).leaf_pages()[i] == old(tree).leaf_of(key@)
                    && r.remaining() == old(tree).records().subrange(
                    #[trigger] old(tree).records_before(i).len() as int,
                    old(tree).records().len() as int,
                ),
    {
        let ghost t0 = *tree;
        proof {
            if t0.wf() {
                t0.lemma_leaf_pages();
                t0.lemma_records();
            }
        }
        let is_empty = tree.is_empty();
        let ghost mut li: int = 0;
        let current_page = if is_empty {
            None
        } else {
            let leaf = tree.find_leaf(key);
            proof {
                li = t0.lemma_leaf_of(key@);
            }
            Some(leaf)
        };
        proof {
            t0.lemma_same_state(&*tree);
            if !is_empty {
                let p = t0.records_before(li).len() as int;
                t0.lemma_records_step(li);
                assert(t0.records().subrange(0, p) == t0.records_before(li));
                assert forall|q: int| 0 <= q < p implies key_lt((#[trigger] t0.records()[q]).0, key@) by {
                    assert(t0.records().subrange(0, p)[q] == t0.records()[q]);
                }
            }
        }
        Cursor { tree, current_page, index_in_page: 0, done: is_empty, leaf_index: Ghost(li) }
    }

    /// The next record, or `None` once every record has been yielded.
    #[verifier::spinoff_prover]
    pub fn next(&mut self) -> (r: Option<Record>)
        requires
            old(self).wf(),
        ensures
            final(self).wf(),
            final(self).tree_view() == old(self).tree_view(),
            final(self).tree_records() == old(self).tree_records(),
            match r {
                Some(rec) => {
                    &&& old(self).remaining().len() > 0
                    &&& (rec.key@, rec.value@) == old(self).remaining()[0]
                    &&& final(self).remaining() == old(self).remaining().drop_first()
                },
                None => old(self).remaining().len() == 0 && final(self).remaining().len() == 0,
            },
    {
        if self.done {
            return None;
        }
        let ghost rem = self.remaining();
        let ghost view0 = self.tree_view();
        let ghost recs0 = self.tree_records();
        let ghost ls = self.tree.leaf_pages();
        loop
            invariant
                self.wf(),
                !self.done,
                self.remaining() == rem,
                self.tree_view() == view0,
                self.tree_records() == recs0,
                self.tree.leaf_pages() == ls,
                rem == old(self).remaining(),
                view0 == old(self).tree_view(),
                recs0 == old(self).tree_records(),
            decreases ls.len() - self.leaf_index@,
        {
            let page_id = match self.current_page {
                Some(id) => id,
                None => {
                    self.done = true;
                    return None;
                },
            };
            let ghost t0 = *self.tree;
            let ghost li = self.leaf_index@;
            proof {
                t0.lemma_leaf_pages();
                assert(ls[li] == page_id);
            }
            let node = match self.tree.read_page_node(page_id) {
                Some(n) => n,
                None => return None,
            };
            proof {
                t0.lemma_same_state(&*self.tree);
            }
            let ghost n = node@;
            let ghost p = t0.records_before(li).len() as int;
            proof {
                t0.lemma_records_step(li);
                t0.lemma_records();
            }
            if self.index_in_page >= node.keys.len() {
                self.current_page = node.next_leaf;
                self.index_in_page = 0;
                if self.current_page.is_none() {
                    self.done = true;
                    proof {
                        assert(li + 1 == ls.len());
                    }
                    return None;
                }
                proof {
                    self.leaf_index = Ghost(li + 1);
                }
                continue;
            }
            let j = self.index_in_page;
            proof {
                let p1 = t0.records_before(li + 1).len() as int;
                assert(t0.records().subrange(0, p1)[p + j] == t0.records()[p + j]);
                assert(t0.records_before(li + 1)[p + j] == leaf_entries(n)[j as int]);
                assert(n.keys[j as int] == node.keys@[j as int]@);
            }
            let key = node.keys[j].duplicate();
            let value = copy_bytes(&node.values[j]);
            self.index_in_page = self.index_in_page + 1;
            proof {
                assert(rem[0] == t0.records()[p + j]);
                assert(self.remaining() =~= rem.drop_first());
            }
            return Some(Record { key, value });
        }
    }
}

} // verus!
