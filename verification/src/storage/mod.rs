//! Page stores.
use vstd::prelude::*;
use crate::page::{Page, PageView};

pub mod memory;
pub mod file;

verus! {

/// A store of pages addressed by page id, which hands out page ids in order.
pub trait Storage {
    /// The pages held, by page id.
    spec fn page_map(&self) -> Map<u64, PageView>;

    /// The number of page ids handed out so far; the next id to hand out.
    spec fn allocated(&self) -> u64;

    /// The pages as the store last made them durable, by page id.
    spec fn synced(&self) -> Map<u64, PageView>;

    /// The page with the given id, if the store holds one.
    fn read_page(&mut self, page_id: u64) -> (r: Option<Page>)
        ensures
            final(self).page_map() == old(self).page_map(),
            final(self).allocated() == old(self).allocated(),
            r is Some <==> old(self).page_map().contains_key(page_id),
            r matches Some(p) ==> p@ == old(self).page_map()[page_id],
    ;

    /// Stores the page under the id in its header, replacing any page there.
    fn write_page(&mut self, page: &Page)
        ensures
            final(self).page_map() == old(self).page_map().insert(page.header.page_id, page@),
            final(self).allocated() == old(self).allocated(),
    ;

    /// Hands out the next page id.
    fn alloc_page(&mut self) -> (r: u64)
        requires
            old(self).allocated() < u64::MAX,
        ensures
            r == old(self).allocated(),
            final(self).allocated() == r + 1,
            final(self).page_map() == old(self).page_map(),
    ;

    /// The number of page ids handed out so far.
    fn page_count(&self) -> (r: u64)
        ensures
            r == self.allocated(),
    ;

    /// Makes the pages durable; the pages held do not change.
    fn flush(&mut self)
        ensures
            final(self).page_map() == old(self).page_map(),
            final(self).allocated() == old(self).allocated(),
            final(self).synced() == final(self).page_map(),
    ;

    /// Releases the store.
    fn close(&mut self);
}

} // verus!
