//! Page-level locking for a single-threaded tree: every lock is granted at once.
use vstd::prelude::*;

verus! {

/// Page latch placeholder.
pub struct PageLatch(());

impl PageLatch {
    pub fn new() -> (r: Self) {
        Self(())
    }
}

impl Default for PageLatch {
    fn default() -> (r: Self) {
        Self::new()
    }
}

impl Clone for PageLatch {
    fn clone(&self) -> (r: Self) {
        Self(())
    }
}

/// Lock manager: holds no locks, grants every request.
#[derive(Clone, Default)]
pub struct LockManager;

/// Lock guard; releasing it does nothing.
pub struct LockGuard;

impl LockManager {
    pub fn new() -> (r: Self) {
        Self
    }

    /// Locks a page for reading.
    pub fn read_lock(&self, page_id: u64) -> (r: LockGuard) {
        LockGuard
    }

    /// Locks a page for writing.
    pub fn write_lock(&self, page_id: u64) -> (r: LockGuard) {
        LockGuard
    }

    /// Releases all locks.
    pub fn clear(&self) {
    }

    /// Number of locks held.
    pub fn lock_count(&self) -> (r: usize)
        ensures
            r == 0,
    {
        0
    }
}

} // verus!
