use acorn::cache::{CacheError, PageCache};
use acorn::id::PageId;
use acorn::storage::MemStorage;

fn cache_of(page_size: u16, capacity: usize) -> PageCache<MemStorage> {
    PageCache::new(MemStorage::new(page_size, vec![0]), capacity)
}

#[test]
fn simple_read_write() {
    let mut cache = cache_of(8, 128);

    cache.write_page(PageId::new(0, 1), 0, &[69; 8]).unwrap();
    cache.write_page(PageId::new(0, 2), 0, &[25; 8]).unwrap();

    let page_1 = cache.read_page(PageId::new(0, 1)).unwrap();
    let page_2 = cache.read_page(PageId::new(0, 2)).unwrap();

    assert_eq!(cache.num_dirty(), 2);
    assert!(page_1.iter().all(|b| *b == 69));
    assert!(page_2.iter().all(|b| *b == 25));
    assert_eq!(cache.storage().reads(), &vec![PageId::new(0, 1), PageId::new(0, 2)]);
    assert!(cache.storage().writes().is_empty());
}

#[test]
fn flush_writes() {
    let mut cache = cache_of(8, 128);

    cache.write_page(PageId::new(0, 1), 0, &[69; 8]).unwrap();
    cache.flush().unwrap();

    assert_eq!(cache.num_dirty(), 0);
    assert_eq!(cache.storage().writes(), &vec![(PageId::new(0, 1), vec![69u8; 8])]);
    assert_eq!(cache.storage().reads(), &vec![PageId::new(0, 1)]);
}

#[test]
fn flush_twice_writes_nothing_more() {
    let mut cache = cache_of(8, 4);
    cache.write_page(PageId::new(0, 1), 0, &[7; 8]).unwrap();
    cache.write_page(PageId::new(0, 2), 0, &[8; 8]).unwrap();
    cache.flush().unwrap();
    assert_eq!(cache.storage().writes().len(), 2);
    cache.flush().unwrap();
    assert_eq!(cache.storage().writes().len(), 2);
    assert_eq!(cache.num_dirty(), 0);
}

#[test]
fn eviction_preserves_dirty() {
    let mut cache = cache_of(8, 2);
    cache.write_page(PageId::new(0, 1), 0, &[1; 8]).unwrap();
    cache.write_page(PageId::new(0, 2), 0, &[2; 8]).unwrap();
    cache.write_page(PageId::new(0, 3), 0, &[3; 8]).unwrap();

    assert_eq!(cache.storage().writes(), &vec![(PageId::new(0, 1), vec![1u8; 8])]);
    assert_eq!(cache.num_dirty(), 2);

    let page_1 = cache.read_page(PageId::new(0, 1)).unwrap();
    assert_eq!(page_1, vec![1u8; 8]);
}

#[test]
fn eviction_picks_least_recently_used() {
    let mut cache = cache_of(8, 2);
    cache.write_page(PageId::new(0, 1), 0, &[1; 8]).unwrap();
    cache.write_page(PageId::new(0, 2), 0, &[2; 8]).unwrap();
    cache.read_page(PageId::new(0, 1)).unwrap();
    cache.write_page(PageId::new(0, 3), 0, &[3; 8]).unwrap();

    assert_eq!(cache.storage().writes(), &vec![(PageId::new(0, 2), vec![2u8; 8])]);
    assert_eq!(cache.read_page(PageId::new(0, 2)).unwrap(), vec![2u8; 8]);
}

#[test]
fn partial_write_keeps_other_bytes() {
    let mut cache = cache_of(8, 4);
    cache.write_page(PageId::new(0, 1), 0, &[9; 8]).unwrap();
    cache.write_page(PageId::new(0, 1), 2, &[1, 2, 3]).unwrap();
    assert_eq!(cache.read_page(PageId::new(0, 1)).unwrap(), vec![9, 9, 1, 2, 3, 9, 9, 9]);
}

#[test]
fn unwritten_page_reads_as_zeros() {
    let mut cache = cache_of(8, 4);
    assert_eq!(cache.read_page(PageId::new(3, 7)).unwrap(), vec![0u8; 8]);
    assert_eq!(cache.num_dirty(), 0);
}

#[test]
fn locked_page_refuses_other_writers() {
    let mut cache = cache_of(8, 4);
    cache.write_locked(1, PageId::new(0, 1), 0, &[5; 8]).unwrap();
    assert_eq!(cache.write_page(PageId::new(0, 1), 0, &[6; 8]), Err(CacheError::PageLocked));
    assert_eq!(cache.read_page(PageId::new(0, 1)), Err(CacheError::PageLocked));
    assert_eq!(cache.write_locked(2, PageId::new(0, 1), 0, &[6; 8]), Err(CacheError::PageLocked));
    assert_eq!(cache.read_locked(1, PageId::new(0, 1)).unwrap(), vec![5u8; 8]);
    cache.unlock_all(1);
    assert_eq!(cache.read_page(PageId::new(0, 1)).unwrap(), vec![5u8; 8]);
}

#[test]
fn locked_pages_are_never_evicted() {
    let mut cache = cache_of(8, 1);
    cache.write_locked(1, PageId::new(0, 1), 0, &[5; 8]).unwrap();
    assert_eq!(cache.read_page(PageId::new(0, 2)), Err(CacheError::NoFreeFrame));
    assert!(cache.storage().writes().is_empty());
    cache.unlock_all(1);
    assert_eq!(cache.read_page(PageId::new(0, 2)).unwrap(), vec![0u8; 8]);
    assert_eq!(cache.storage().writes(), &vec![(PageId::new(0, 1), vec![5u8; 8])]);
}

#[test]
fn zero_capacity_has_no_frame() {
    let mut cache = cache_of(8, 0);
    assert_eq!(cache.read_page(PageId::new(0, 1)), Err(CacheError::NoFreeFrame));
}

#[test]
fn segment_list_comes_from_storage() {
    let cache = PageCache::new(MemStorage::new(8, vec![0, 3, 7]), 2);
    assert_eq!(cache.segment_nums(), vec![0, 3, 7]);
}

#[test]
fn failed_flush_never_happens_on_memory_storage() {
    let mut cache = cache_of(8, 3);
    for p in 1..=3u16 {
        cache.write_page(PageId::new(0, p), 0, &[p as u8; 8]).unwrap();
    }
    cache.flush().unwrap();
    assert_eq!(cache.storage().writes().len(), 3);
    assert_eq!(cache.num_dirty(), 0);
}
