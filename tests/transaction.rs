use acorn::cache::PageCache;
use acorn::error::Error;
use acorn::id::{ItemId, PageId};
use acorn::storage::MemStorage;
use acorn::transaction::TransactionManager;
use acorn::wal::{Wal, WalError, WalRecord};

const PAGE_SIZE: u16 = 512;

fn fresh_cache(capacity: usize) -> PageCache<MemStorage> {
    PageCache::new(MemStorage::new(PAGE_SIZE, vec![0]), capacity)
}

fn write_record(tid: u64, seq: u64, page: u16, before: u8, after: u8) -> WalRecord {
    WalRecord::Write {
        tid,
        seq,
        page_id: PageId::new(0, page),
        start: 0,
        before: vec![before; PAGE_SIZE as usize],
        after: vec![after; PAGE_SIZE as usize],
    }
}

#[test]
fn simple_transaction() {
    let mut cache = fresh_cache(100);
    cache.write_page(PageId::new(0, 1), 0, &[0; PAGE_SIZE as usize]).unwrap();
    cache.write_page(PageId::new(0, 2), 0, &[0; PAGE_SIZE as usize]).unwrap();

    let mut tm = TransactionManager::new(cache, Wal::init(PAGE_SIZE)).unwrap();
    let mut t = tm.begin().unwrap();

    t.write(&mut tm, PageId::new(0, 1), &[25; PAGE_SIZE as usize]).unwrap();
    let buf = t.read(&mut tm, PageId::new(0, 1)).unwrap();
    assert!(buf.iter().all(|b| *b == 25));

    t.write(&mut tm, PageId::new(0, 2), &[69; PAGE_SIZE as usize]).unwrap();
    let buf = t.read(&mut tm, PageId::new(0, 2)).unwrap();
    assert!(buf.iter().all(|b| *b == 69));

    t.commit(&mut tm).unwrap();

    let (_, wal) = tm.into_parts();
    let wal = Wal::load(wal.as_bytes().clone(), PAGE_SIZE).unwrap();
    let wal_items = wal.iter().unwrap();
    assert_eq!(
        wal_items,
        vec![
            write_record(0, 1, 1, 0, 25),
            write_record(0, 2, 2, 0, 69),
            WalRecord::Commit { tid: 0, seq: 3 },
        ]
    );
}

#[test]
fn recovery_redo_committed() {
    let mut wal = Wal::init(PAGE_SIZE);
    wal.push_write(0, 1, PageId::new(0, 1), 0, &[0; 512], &[25; 512]).unwrap();
    wal.push_write(0, 2, PageId::new(0, 2), 0, &[0; 512], &[69; 512]).unwrap();
    wal.push_commit(0, 3).unwrap();
    wal.flush();

    let tm = TransactionManager::new(fresh_cache(16), wal).unwrap();
    let (mut cache, _) = tm.into_parts();
    assert_eq!(cache.read_page(PageId::new(0, 1)).unwrap(), vec![25u8; 512]);
    assert_eq!(cache.read_page(PageId::new(0, 2)).unwrap(), vec![69u8; 512]);
}

#[test]
fn recovery_undo_uncommitted() {
    let mut wal = Wal::init(PAGE_SIZE);
    wal.push_write(7, 1, PageId::new(0, 5), 0, &[0; 512], &[99; 512]).unwrap();

    let mut cache = fresh_cache(16);
    cache.write_page(PageId::new(0, 5), 0, &[99; 512]).unwrap();

    let tm = TransactionManager::new(cache, wal).unwrap();
    let (mut cache, _) = tm.into_parts();
    assert_eq!(cache.read_page(PageId::new(0, 5)).unwrap(), vec![0u8; 512]);
}

#[test]
fn recovery_undoes_canceled_and_keeps_committed() {
    let mut wal = Wal::init(PAGE_SIZE);
    wal.push_write(1, 1, PageId::new(0, 1), 0, &[0; 512], &[11; 512]).unwrap();
    wal.push_write(2, 2, PageId::new(0, 2), 0, &[0; 512], &[22; 512]).unwrap();
    wal.push_write(1, 3, PageId::new(0, 1), 4, &[11; 4], &[12; 4]).unwrap();
    wal.push_cancel(1, 4).unwrap();
    wal.push_commit(2, 5).unwrap();

    let tm = TransactionManager::new(fresh_cache(16), wal).unwrap();
    let (mut cache, _) = tm.into_parts();
    assert_eq!(cache.read_page(PageId::new(0, 1)).unwrap(), vec![0u8; 512]);
    assert_eq!(cache.read_page(PageId::new(0, 2)).unwrap(), vec![22u8; 512]);
}

#[test]
fn tids_continue_after_recovered_log() {
    let mut wal = Wal::init(PAGE_SIZE);
    wal.push_commit(41, 1).unwrap();
    let mut tm = TransactionManager::new(fresh_cache(4), wal).unwrap();
    let mut t = tm.begin().unwrap();
    assert_eq!(t.tid(), 42);
    t.write(&mut tm, PageId::new(0, 1), &[1; 4]).unwrap();
    t.commit(&mut tm).unwrap();
    let records = tm.wal().iter().unwrap();
    assert_eq!(records.len(), 3);
    assert_eq!(records[2], WalRecord::Commit { tid: 42, seq: 3 });
}

#[test]
fn write_logs_smallest_changed_range() {
    let mut tm = TransactionManager::new(fresh_cache(4), Wal::init(PAGE_SIZE)).unwrap();
    let mut t = tm.begin().unwrap();
    t.write(&mut tm, PageId::new(0, 3), &[0, 0, 7, 0, 8, 0]).unwrap();
    let records = tm.wal().iter().unwrap();
    assert_eq!(
        records,
        vec![WalRecord::Write {
            tid: 0,
            seq: 1,
            page_id: PageId::new(0, 3),
            start: 2,
            before: vec![0, 0, 0],
            after: vec![7, 0, 8],
        }]
    );
}

#[test]
fn write_then_read_back_after_commit_and_eviction() {
    let mut tm = TransactionManager::new(fresh_cache(1), Wal::init(PAGE_SIZE)).unwrap();
    let mut t = tm.begin().unwrap();
    t.write(&mut tm, PageId::new(0, 1), &[33; 512]).unwrap();
    t.commit(&mut tm).unwrap();

    let mut t = tm.begin().unwrap();
    assert_eq!(t.read(&mut tm, PageId::new(0, 2)).unwrap(), vec![0u8; 512]);
    assert_eq!(t.read(&mut tm, PageId::new(0, 1)).unwrap(), vec![33u8; 512]);
    t.write(&mut tm, PageId::new(0, 1), &[34; 512]).unwrap();
    assert_eq!(t.read(&mut tm, PageId::new(0, 1)).unwrap(), vec![34u8; 512]);
}

#[test]
fn cancel_rolls_back() {
    let mut tm = TransactionManager::new(fresh_cache(8), Wal::init(PAGE_SIZE)).unwrap();
    let mut t = tm.begin().unwrap();
    t.write(&mut tm, PageId::new(0, 1), &[5; 512]).unwrap();
    t.commit(&mut tm).unwrap();

    let mut t = tm.begin().unwrap();
    t.write(&mut tm, PageId::new(0, 1), &[6; 100]).unwrap();
    t.write(&mut tm, PageId::new(0, 1), &[7; 10]).unwrap();
    t.write(&mut tm, PageId::new(0, 2), &[8; 512]).unwrap();
    t.cancel(&mut tm).unwrap();

    let mut t = tm.begin().unwrap();
    assert_eq!(t.read(&mut tm, PageId::new(0, 1)).unwrap(), vec![5u8; 512]);
    assert_eq!(t.read(&mut tm, PageId::new(0, 2)).unwrap(), vec![0u8; 512]);
    let records = tm.wal().iter().unwrap();
    assert_eq!(records.last(), Some(&WalRecord::Cancel { tid: 1, seq: 6 }));
}

#[test]
fn second_transaction_waits_for_lock() {
    let mut tm = TransactionManager::new(fresh_cache(8), Wal::init(PAGE_SIZE)).unwrap();
    let mut a = tm.begin().unwrap();
    let mut b = tm.begin().unwrap();
    a.write(&mut tm, PageId::new(0, 1), &[1; 8]).unwrap();
    assert_eq!(
        b.write(&mut tm, PageId::new(0, 1), &[2; 8]),
        Err(Error::Cache(acorn::cache::CacheError::PageLocked))
    );
    a.commit(&mut tm).unwrap();
    b.write(&mut tm, PageId::new(0, 1), &[2; 8]).unwrap();
}

#[test]
fn page_size_mismatch_is_refused() {
    let r = TransactionManager::new(fresh_cache(4), Wal::init(1024));
    assert!(matches!(r, Err(Error::Wal(WalError::BadHeader))));
}

#[test]
fn exhausted_tids_are_refused() {
    let mut wal = Wal::init(PAGE_SIZE);
    wal.push_commit(u64::MAX, 1).unwrap();
    let r = TransactionManager::new(fresh_cache(4), wal);
    assert!(matches!(r, Err(Error::SizeLimitReached)));
}

#[test]
fn item_ids_name_their_page() {
    let page = PageId::new(3, 9);
    let item = ItemId::new(page, 4);
    assert_eq!(item.index, 4);
    assert_eq!(item.page_id(), page);
}
