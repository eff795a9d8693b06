use btree6::lock::{LockManager, PageLatch};

#[test]
fn test_lock_manager() {
    let manager = LockManager::new();
    let _guard = manager.read_lock(1);
    let _guard2 = manager.read_lock(1);
}

#[test]
fn lock_manager_holds_no_locks() {
    let manager = LockManager::default();
    let _w = manager.write_lock(7);
    let _r = manager.read_lock(7);
    manager.clear();
    assert_eq!(manager.lock_count(), 0);
    let _latch = PageLatch::default().clone();
}
