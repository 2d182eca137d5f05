use slab::{SlabCache, REGION_SIZE};

#[test]
fn cache_reports_its_block_size() {
    assert_eq!(SlabCache::new(64).block_size(), 64);
    assert_eq!(SlabCache::new(0).block_size(), 0);
    assert_eq!(SlabCache::new(usize::MAX).block_size(), usize::MAX);
}

#[test]
fn cache_hands_out_offsets_from_the_top() {
    let mut cache = SlabCache::new(64);
    assert_eq!(cache.allocate(), Some(4032));
    assert_eq!(cache.allocate(), Some(3968));
    assert_eq!(cache.allocate(), Some(3904));
}

#[test]
fn cache_holds_region_size_over_block_size_blocks() {
    for size in [1usize, 2, 3, 8, 100, 1024, 2048, 2049, 4095, 4096] {
        let mut cache = SlabCache::new(size);
        let capacity: usize = REGION_SIZE / size;
        for k in (0..capacity).rev() {
            assert_eq!(cache.allocate(), Some(k * size));
        }
        assert_eq!(cache.allocate(), None);
    }
}

#[test]
fn cache_with_a_block_size_that_does_not_divide_the_region() {
    let mut cache = SlabCache::new(1000);
    assert_eq!(cache.allocate(), Some(3000));
    assert_eq!(cache.allocate(), Some(2000));
    assert_eq!(cache.allocate(), Some(1000));
    assert_eq!(cache.allocate(), Some(0));
    assert_eq!(cache.allocate(), None);
}

#[test]
fn cache_without_room_for_a_block_is_exhausted_at_once() {
    let mut large = SlabCache::new(4097);
    assert_eq!(large.allocate(), None);
    assert_eq!(large.allocate(), None);
    let mut largest = SlabCache::new(usize::MAX);
    assert_eq!(largest.allocate(), None);
    let mut empty = SlabCache::new(0);
    assert_eq!(empty.allocate(), None);
    assert_eq!(empty.allocate(), None);
}

#[test]
fn cache_reuses_the_block_given_back() {
    let mut cache = SlabCache::new(32);
    let a: usize = cache.allocate().unwrap();
    cache.dealloc(a);
    assert_eq!(cache.allocate(), Some(a));
}

#[test]
fn cache_is_a_stack_of_free_blocks() {
    let mut cache = SlabCache::new(512);
    let a: usize = cache.allocate().unwrap();
    let b: usize = cache.allocate().unwrap();
    let c: usize = cache.allocate().unwrap();
    cache.dealloc(b);
    cache.dealloc(a);
    cache.dealloc(c);
    assert_eq!(cache.allocate(), Some(c));
    assert_eq!(cache.allocate(), Some(a));
    assert_eq!(cache.allocate(), Some(b));
    assert_eq!(cache.allocate(), Some(4 * 512));
}

#[test]
fn cache_cuts_its_region_once() {
    let mut cache = SlabCache::new(2048);
    let a: usize = cache.allocate().unwrap();
    let b: usize = cache.allocate().unwrap();
    assert_eq!((a, b), (2048, 0));
    assert_eq!(cache.allocate(), None);
    cache.dealloc(a);
    assert_eq!(cache.allocate(), Some(a));
    assert_eq!(cache.allocate(), None);
    cache.dealloc(b);
    cache.dealloc(a);
    assert_eq!(cache.allocate(), Some(a));
    assert_eq!(cache.allocate(), Some(b));
    assert_eq!(cache.allocate(), None);
}

#[test]
fn cache_of_single_bytes_serves_the_whole_region() {
    let mut cache = SlabCache::new(1);
    let mut seen: Vec<bool> = vec![false; REGION_SIZE];
    for _ in 0..REGION_SIZE {
        let p: usize = cache.allocate().unwrap();
        assert!(!seen[p]);
        seen[p] = true;
    }
    assert_eq!(cache.allocate(), None);
    cache.dealloc(4095);
    cache.dealloc(0);
    assert_eq!(cache.allocate(), Some(0));
    assert_eq!(cache.allocate(), Some(4095));
    assert_eq!(cache.allocate(), None);
}
