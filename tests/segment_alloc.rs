use acorn::cache::PageCache;
use acorn::id::PageId;
use acorn::segment_alloc::SegmentAllocManager;
use acorn::storage::MemStorage;
use acorn::transaction::TransactionManager;
use acorn::wal::Wal;

fn manager() -> TransactionManager<MemStorage> {
    let mut cache = PageCache::new(MemStorage::new(512, vec![0]), 16);
    cache.write_page(PageId::new(0, 0), 0, &[1, 0, 0, 0]).unwrap();
    TransactionManager::new(cache, Wal::init(512)).unwrap()
}

#[test]
fn new_pages_extend_the_segment() {
    let mut tm = manager();
    let seg = SegmentAllocManager::new(0);
    let mut t = tm.begin().unwrap();
    assert_eq!(seg.alloc_page(&mut tm, &mut t).unwrap(), Some(1));
    assert_eq!(seg.alloc_page(&mut tm, &mut t).unwrap(), Some(2));
    let header = t.read(&mut tm, PageId::new(0, 0)).unwrap();
    assert_eq!(header[0..4], [3, 0, 0, 0]);
}

#[test]
fn freed_pages_are_reused() {
    let mut tm = manager();
    let seg = SegmentAllocManager::new(0);
    let mut t = tm.begin().unwrap();
    for _ in 0..3 {
        seg.alloc_page(&mut tm, &mut t).unwrap();
    }
    seg.free_page(&mut tm, &mut t, 2).unwrap();
    let header = t.read(&mut tm, PageId::new(0, 0)).unwrap();
    assert_eq!(header[2..4], [2, 0]);
    seg.free_page(&mut tm, &mut t, 3).unwrap();
    let trunk = t.read(&mut tm, PageId::new(0, 2)).unwrap();
    assert_eq!(trunk[0..6], [0, 0, 1, 0, 3, 0]);

    assert_eq!(seg.alloc_page(&mut tm, &mut t).unwrap(), Some(3));
    assert_eq!(seg.alloc_page(&mut tm, &mut t).unwrap(), Some(2));
    assert_eq!(seg.alloc_page(&mut tm, &mut t).unwrap(), Some(4));
    assert_eq!(seg.segment_num(), 0);
}

#[test]
fn full_segment_allocates_nothing() {
    let mut cache = PageCache::new(MemStorage::new(512, vec![0]), 4);
    cache.write_page(PageId::new(0, 0), 0, &[0xff, 0xff, 0, 0]).unwrap();
    let mut tm = TransactionManager::new(cache, Wal::init(512)).unwrap();
    let seg = SegmentAllocManager::new(0);
    let mut t = tm.begin().unwrap();
    assert_eq!(seg.alloc_page(&mut tm, &mut t).unwrap(), None);
}

#[test]
fn empty_header_is_corrupted() {
    let mut tm = TransactionManager::new(PageCache::new(MemStorage::new(512, vec![0]), 4), Wal::init(512)).unwrap();
    let seg = SegmentAllocManager::new(0);
    let mut t = tm.begin().unwrap();
    assert_eq!(seg.alloc_page(&mut tm, &mut t), Err(acorn::error::Error::CorruptedSegment(0)));
}
