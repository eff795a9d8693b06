//! In-memory page store.
use vstd::prelude::*;
use std::collections::HashMap;
use crate::page::{Page, PageView, DEFAULT_PAGE_SIZE};
use crate::storage::Storage;

verus! {

broadcast use vstd::std_specs::hash::group_hash_axioms;

/// In-memory page store.
#[derive(Clone)]
pub struct MemoryStorage {
    pub pages: HashMap<u64, Page>,
    pub next_page_id: u64,
    page_size: usize,
}

impl MemoryStorage {
    pub fn new() -> (r: Self)
        ensures
            r.page_map() == Map::<u64, PageView>::empty(),
            r.allocated() == 0,
    {
        let r = Self { pages: HashMap::new(), next_page_id: 0, page_size: DEFAULT_PAGE_SIZE };
        assert(r.page_map() =~= Map::<u64, PageView>::empty());
        r
    }

    pub fn with_capacity(capacity: usize) -> (r: Self)
        ensures
            r.page_map() == Map::<u64, PageView>::empty(),
            r.allocated() == 0,
    {
        let r = Self {
            pages: HashMap::with_capacity(capacity),
            next_page_id: 0,
            page_size: DEFAULT_PAGE_SIZE,
        };
        assert(r.page_map() =~= Map::<u64, PageView>::empty());
        r
    }

    /// Drops every page and starts the page ids over.
    pub fn clear(&mut self)
        ensures
            final(self).page_map() == Map::<u64, PageView>::empty(),
            final(self).allocated() == 0,
    {
        self.pages.clear();
        self.next_page_id = 0;
        assert(self.page_map() =~= Map::<u64, PageView>::empty());
    }
}

impl Default for MemoryStorage {
    fn default() -> (r: Self)
        ensures
            r.page_map() == Map::<u64, PageView>::empty(),
            r.allocated() == 0,
    {
        Self::new()
    }
}

impl Storage for MemoryStorage {
    closed spec fn page_map(&self) -> Map<u64, PageView> {
        self.pages@.map_values(|p: Page| p@)
    }

    closed spec fn allocated(&self) -> u64 {
        self.next_page_id
    }

    /// Memory holds nothing back: its durable pages are the pages it holds.
    closed spec fn synced(&self) -> Map<u64, PageView> {
        self.page_map()
    }

    fn read_page(&mut self, page_id: u64) -> (r: Option<Page>) {
        match self.pages.get(&page_id) {
            Some(p) => Some(p.duplicate()),
            None => None,
        }
    }

    fn write_page(&mut self, page: &Page) {
        self.pages.insert(page.header.page_id, page.duplicate());
        assert(self.page_map() =~= old(self).page_map().insert(page.header.page_id, page@));
    }

    fn alloc_page(&mut self) -> (r: u64) {
        let id = self.next_page_id;
        self.next_page_id = self.next_page_id + 1;
        id
    }

    fn page_count(&self) -> (r: u64) {
        self.next_page_id
    }

    fn flush(&mut self) {
    }

    fn close(&mut self)
        ensures
            final(self).page_map() == Map::<u64, PageView>::empty(),
            final(self).allocated() == 0,
    {
        self.pages.clear();
        self.next_page_id = 0;
        assert(self.page_map() =~= Map::<u64, PageView>::empty());
    }
}

} // verus!
