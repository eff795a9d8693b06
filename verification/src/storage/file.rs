//! The pages of a tree file, and the metadata such a file starts with.
use vstd::prelude::*;
use std::collections::HashMap;
use crate::page::{Page, PageView, DEFAULT_PAGE_SIZE};
use crate::storage::Storage;

verus! {

broadcast use vstd::std_specs::hash::group_hash_axioms;

/// Magic number of a tree file ("BTV7").
pub const FILE_MAGIC: u32 = 0x42545637;

/// File header metadata (stored in page 0).
#[derive(Debug, Clone)]
pub struct BTreeHeader {
    pub magic: u32,
    pub version: u32,
    pub root_page: u64,
    pub page_count: u64,
    /// Number of key-value pairs.
    pub size: u64,
}

impl BTreeHeader {
    pub fn new(root_page: u64, page_count: u64, size: u64) -> (r: Self)
        ensures
            r.magic == FILE_MAGIC,
            r.version == 1,
            r.root_page == root_page,
            r.page_count == page_count,
            r.size == size,
    {
        Self { magic: FILE_MAGIC, version: 1, root_page, page_count, size }
    }
}

/// The pages of a tree file, one slot of `DEFAULT_PAGE_SIZE` bytes per page
/// id: the pages its slots held when it was read, and every page written
/// since. Page ids are handed out from the number of whole slots the file
/// held. Reading the file's slots and writing the pages back to their slots
/// at `page_id * DEFAULT_PAGE_SIZE` are the caller's part.
pub struct FileStore {
    /// The pages, by page id.
    pub pages: HashMap<u64, Page>,
    /// The next page id to hand out.
    pub next_page_id: u64,
    /// The pages as of the last `flush`, the ones the caller is to write back.
    durable: Ghost<Map<u64, PageView>>,
}

/// The pages that slots read from a file hold: slot `i` holds page id `i`
/// where it decoded to a page.
pub open spec fn slot_pages(slots: Seq<Option<Page>>) -> Map<u64, PageView> {
    Map::new(|id: u64| id < slots.len() && slots[id as int] is Some, |id: u64| slots[id as int]->0@)
}

impl FileStore {
    /// The store of a file of `file_size` bytes whose slots, read in order,
    /// decoded to `slots` (`None` where a slot did not decode).
    pub fn from_slots(slots: Vec<Option<Page>>, file_size: u64) -> (r: Self)
        ensures
            r.page_map() == slot_pages(slots@),
            r.allocated() == file_size / (DEFAULT_PAGE_SIZE as u64),
            r.synced() == r.page_map(),
    {
        let mut pages: HashMap<u64, Page> = HashMap::new();
        let mut i: usize = 0;
        while i < slots.len()
            invariant
                i <= slots@.len(),
                forall|id: u64| #[trigger] pages@.contains_key(id) <==> (id < i && slots@[id as int] is Some),
                forall|id: u64| #[trigger] pages@.contains_key(id) ==> pages@[id]@ == slots@[id as int]->0@,
            decreases slots@.len() - i,
        {
            let ghost before = pages@;
            let ghost k = i as u64;
            match &slots[i] {
                Some(p) => {
                    let d = p.duplicate();
                    pages.insert(i as u64, d);
                },
                None => {},
            }
            i = i + 1;
            assert forall|id: u64| #[trigger] pages@.contains_key(id) <==> (id < i && slots@[id as int] is Some) by {
                if id != k {
                    assert(pages@.contains_key(id) == before.contains_key(id));
                }
            }
        }
        let r = FileStore {
            pages,
            next_page_id: file_size / (DEFAULT_PAGE_SIZE as u64),
            durable: Ghost(pages@.map_values(|p: Page| p@)),
        };
        assert(r.page_map() =~= slot_pages(slots@)) by {
            assert forall|id: u64| #[trigger] r.page_map().contains_key(id) implies r.page_map()[id]
                == slot_pages(slots@)[id] by {
                assert(pages@.contains_key(id));
            }
        }
        r
    }
}

impl Storage for FileStore {
    closed spec fn page_map(&self) -> Map<u64, PageView> {
        self.pages@.map_values(|p: Page| p@)
    }

    closed spec fn allocated(&self) -> u64 {
        self.next_page_id
    }

    closed spec fn synced(&self) -> Map<u64, PageView> {
        self.durable@
    }

    fn read_page(&mut self, page_id: u64) -> (r: Option<Page>) {
        match self.pages.get(&page_id) {
            Some(p) => Some(p.duplicate()),
            None => None,
        }
    }

    fn write_page(&mut self, page: &Page) {
        self.pages.insert(page.header.page_id, page.duplicate());
        assert(self.page_map() =~= old(self).page_map().insert(page.header.page_id, page@));
    }

    fn alloc_page(&mut self) -> (r: u64) {
        let id = self.next_page_id;
        self.next_page_id = self.next_page_id + 1;
        id
    }

    fn page_count(&self) -> (r: u64) {
        self.next_page_id
    }

    fn flush(&mut self) {
        self.durable = Ghost(self.page_map());
    }

    /// Makes the pages durable and lets them go: nothing is readable after,
    /// and page ids go on from where they were.
    fn close(&mut self)
        ensures
            final(self).synced() == old(self).page_map(),
            final(self).page_map() == Map::<u64, PageView>::empty(),
            final(self).allocated() == old(self).allocated(),
    {
        self.durable = Ghost(self.page_map());
        self.pages.clear();
        assert(self.page_map() =~= Map::<u64, PageView>::empty());
    }
}

} // verus!
