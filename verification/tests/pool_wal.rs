use gsql::buffer::BufferPool;
use gsql::page::Page;
use gsql::value::Value;
use gsql::wal::{WalOp, WalRecord, WriteAheadLog};

#[test]
fn pool_capacity_is_never_exceeded() {
    let mut pool = BufferPool::new(2);
    for _ in 0..5 {
        pool.allocate_page();
    }
    for p in 0..5u64 {
        let d = pool.get(p).unwrap();
        assert_eq!(d.len(), 8192);
        pool.release(p);
        assert!(pool.resident_pages() <= 2);
    }
}

#[test]
fn pinned_page_survives_eviction_pressure() {
    let mut pool = BufferPool::new(2);
    for _ in 0..4 {
        pool.allocate_page();
    }
    let _d = pool.get(0).unwrap(); // page 0 stays pinned
    for p in 1..4u64 {
        let _ = pool.get(p).unwrap();
        pool.release(p);
    }
    assert!(pool.is_resident(0));
    pool.release(0);
}

#[test]
fn pool_read_beyond_extent_fails() {
    let mut pool = BufferPool::new(2);
    pool.allocate_page();
    assert!(pool.get(5).is_err());
}

#[test]
fn dirty_page_reaches_disk_only_after_flush() {
    let mut pool = BufferPool::new(2);
    let p = pool.allocate_page();
    let _d = pool.get(p).unwrap();
    let data = vec![7u8; 8192];
    pool.write_page(p, &data).unwrap();
    pool.release(p);
    pool.flush_all();
    let d = pool.get(p).unwrap();
    assert_eq!(d[0], 7);
    pool.release(p);
}

#[test]
fn wal_crash_keeps_only_flushed_prefix() {
    let mut wal = WriteAheadLog::new();
    let rec = |k: i64| WalRecord {
        table: "t".to_owned(),
        op: WalOp::Insert,
        page_no: 0,
        slot: k as u64,
        values: vec![Value::Int(k)],
    };
    wal.log_insert(rec(1));
    wal.log_insert(rec(2));
    wal.flush();
    wal.log_insert(rec(3));
    let crashed = wal.crashed_copy();
    assert_eq!(crashed.len(), 2);
    assert_eq!(wal.len(), 3);
    assert_eq!(crashed.record_at(1).slot, 2);
}

#[test]
fn fresh_page_is_zeroed() {
    let p = Page::new(3);
    assert_eq!(p.id, 3);
    assert_eq!(p.data.len(), 8192);
    assert!(!p.dirty);
    assert!(p.data.iter().all(|b| *b == 0));
}
