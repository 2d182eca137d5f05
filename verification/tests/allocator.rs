use slab::{AllocError, SlabAllocator, CLASS_COUNT, MAX_BLOCK_SIZE, REGION_SIZE};

const SIZES: [usize; 8] = [8, 16, 32, 64, 128, 256, 512, 1024];

fn take_all(slab: &mut SlabAllocator, class: usize) -> Vec<usize> {
    let capacity: usize = REGION_SIZE / SIZES[class];
    let mut blocks: Vec<usize> = Vec::new();
    for _ in 0..capacity {
        blocks.push(slab.allocate(SIZES[class]).unwrap());
    }
    blocks
}

#[test]
fn slab_alloc_free_reuse() {
    let mut slab = SlabAllocator::new();

    let p1 = slab.allocate(32);
    assert!(p1.is_ok());
    let p1: usize = p1.unwrap();

    slab.dealloc(p1, 32);

    let p2 = slab.allocate(32);
    assert!(p2.is_ok());
    let p2: usize = p2.unwrap();

    assert_eq!(p1, p2);
}

#[test]
fn table_has_eight_classes() {
    assert_eq!(CLASS_COUNT, 8);
    assert_eq!(REGION_SIZE, 4096);
    assert_eq!(MAX_BLOCK_SIZE, 1024);
    assert_eq!(SIZES.len(), CLASS_COUNT);
    assert_eq!(SIZES[CLASS_COUNT - 1], MAX_BLOCK_SIZE);
}

#[test]
fn first_block_of_a_class_is_the_last_of_its_region() {
    let mut slab = SlabAllocator::new();
    assert_eq!(slab.allocate(32), Ok(2 * 4096 + 127 * 32));
    assert_eq!(slab.allocate(32), Ok(2 * 4096 + 126 * 32));
    assert_eq!(slab.allocate(1024), Ok(7 * 4096 + 3 * 1024));
    assert_eq!(slab.allocate(8), Ok(511 * 8));
}

#[test]
fn request_of_nine_bytes_uses_the_sixteen_byte_class() {
    let mut slab = SlabAllocator::new();
    let p: usize = slab.allocate(9).unwrap();
    assert_eq!(p, 8176);
    assert!(4096 <= p && p + 16 <= 2 * 4096);
    assert_eq!((p - 4096) % 16, 0);
}

#[test]
fn every_boundary_routes_to_the_smallest_sufficient_class() {
    for class in 0..CLASS_COUNT {
        let below: usize = if class == 0 { 0 } else { SIZES[class - 1] + 1 };
        for size in [below, SIZES[class]] {
            let mut slab = SlabAllocator::new();
            let p: usize = slab.allocate(size).unwrap();
            let last: usize = REGION_SIZE / SIZES[class] - 1;
            assert_eq!(p, class * REGION_SIZE + last * SIZES[class]);
        }
    }
}

#[test]
fn exact_addresses_at_the_boundaries() {
    let mut slab = SlabAllocator::new();
    assert_eq!(slab.allocate(0), Ok(4088));
    assert_eq!(slab.allocate(8), Ok(4080));
    assert_eq!(slab.allocate(9), Ok(8176));
    assert_eq!(slab.allocate(16), Ok(8160));
    assert_eq!(slab.allocate(17), Ok(12256));
    assert_eq!(slab.allocate(33), Ok(16320));
    assert_eq!(slab.allocate(65), Ok(20352));
    assert_eq!(slab.allocate(129), Ok(24320));
    assert_eq!(slab.allocate(257), Ok(28160));
    assert_eq!(slab.allocate(513), Ok(31744));
    assert_eq!(slab.allocate(1024), Ok(30720));
}

#[test]
fn blocks_of_a_class_are_distinct_aligned_and_apart() {
    for class in 0..CLASS_COUNT {
        let mut slab = SlabAllocator::new();
        let mut blocks: Vec<usize> = take_all(&mut slab, class);
        assert_eq!(blocks.len(), REGION_SIZE / SIZES[class]);
        let base: usize = class * REGION_SIZE;
        for p in blocks.iter() {
            assert!(base <= *p);
            assert!(*p + SIZES[class] <= base + REGION_SIZE);
            assert_eq!((*p - base) % SIZES[class], 0);
        }
        blocks.sort();
        for i in 1..blocks.len() {
            assert!(blocks[i - 1] + SIZES[class] <= blocks[i]);
        }
    }
}

#[test]
fn blocks_come_from_the_end_of_the_region_first() {
    let mut slab = SlabAllocator::new();
    let blocks: Vec<usize> = take_all(&mut slab, 5);
    let mut expected: Vec<usize> = Vec::new();
    for k in (0..16).rev() {
        expected.push(5 * 4096 + k * 256);
    }
    assert_eq!(blocks, expected);
}

#[test]
fn class_is_exhausted_after_capacity_allocations() {
    for class in 0..CLASS_COUNT {
        let mut slab = SlabAllocator::new();
        let blocks: Vec<usize> = take_all(&mut slab, class);
        assert_eq!(blocks.len(), REGION_SIZE / SIZES[class]);
        assert_eq!(slab.allocate(SIZES[class]), Err(AllocError::Exhausted));
        assert_eq!(slab.allocate(SIZES[class]), Err(AllocError::Exhausted));
    }
}

#[test]
fn exhausted_class_leaves_the_others_in_service() {
    let mut slab = SlabAllocator::new();
    let blocks: Vec<usize> = take_all(&mut slab, 7);
    assert_eq!(blocks, vec![31744, 30720, 29696, 28672]);
    assert_eq!(slab.allocate(1000), Err(AllocError::Exhausted));
    assert_eq!(slab.allocate(512), Ok(6 * 4096 + 7 * 512));
}

#[test]
fn exhausted_class_serves_again_after_a_release() {
    let mut slab = SlabAllocator::new();
    let blocks: Vec<usize> = take_all(&mut slab, 6);
    assert_eq!(slab.allocate(512), Err(AllocError::Exhausted));
    slab.dealloc(blocks[3], 512);
    assert_eq!(slab.allocate(512), Ok(blocks[3]));
    assert_eq!(slab.allocate(512), Err(AllocError::Exhausted));
}

#[test]
fn request_above_the_largest_class_is_unsupported() {
    let mut slab = SlabAllocator::new();
    assert_eq!(slab.allocate(1025), Err(AllocError::Unsupported));
    assert_eq!(slab.allocate(4096), Err(AllocError::Unsupported));
    assert_eq!(slab.allocate(usize::MAX), Err(AllocError::Unsupported));
    assert_eq!(slab.allocate(1024), Ok(7 * 4096 + 3 * 1024));
}

#[test]
fn largest_supported_request_is_the_largest_block_size() {
    let mut slab = SlabAllocator::new();
    assert!(slab.allocate(MAX_BLOCK_SIZE).is_ok());
    assert_eq!(slab.allocate(MAX_BLOCK_SIZE + 1), Err(AllocError::Unsupported));
}

#[test]
fn unsupported_request_changes_nothing() {
    let mut slab = SlabAllocator::new();
    assert_eq!(slab.allocate(2000), Err(AllocError::Unsupported));
    for class in 0..CLASS_COUNT {
        let last: usize = REGION_SIZE / SIZES[class] - 1;
        assert_eq!(slab.allocate(SIZES[class]), Ok(class * REGION_SIZE + last * SIZES[class]));
    }
}

#[test]
fn released_blocks_are_reused_last_in_first_out() {
    let mut slab = SlabAllocator::new();
    let a: usize = slab.allocate(64).unwrap();
    let b: usize = slab.allocate(64).unwrap();
    assert_ne!(a, b);
    slab.dealloc(a, 64);
    slab.dealloc(b, 64);
    let x: usize = slab.allocate(64).unwrap();
    let y: usize = slab.allocate(64).unwrap();
    assert_eq!(x, b);
    assert_eq!(y, a);
}

#[test]
fn release_with_another_size_of_the_same_class() {
    let mut slab = SlabAllocator::new();
    let a: usize = slab.allocate(33).unwrap();
    slab.dealloc(a, 64);
    assert_eq!(slab.allocate(50), Ok(a));
}

#[test]
fn classes_do_not_share_addresses() {
    let mut slab = SlabAllocator::new();
    let mut ranges: Vec<(usize, usize)> = Vec::new();
    for class in 0..CLASS_COUNT {
        for p in take_all(&mut slab, class) {
            assert_eq!(p / REGION_SIZE, class);
            ranges.push((p, p + SIZES[class]));
        }
    }
    assert_eq!(ranges.len(), 512 + 256 + 128 + 64 + 32 + 16 + 8 + 4);
    ranges.sort();
    for i in 1..ranges.len() {
        assert!(ranges[i - 1].1 <= ranges[i].0);
    }
}

#[test]
fn two_allocators_keep_separate_books() {
    let mut one = SlabAllocator::new();
    let mut two = SlabAllocator::new();
    let a: usize = one.allocate(128).unwrap();
    let b: usize = one.allocate(128).unwrap();
    assert_eq!(two.allocate(128), Ok(a));
    assert_eq!(two.allocate(128), Ok(b));
}

#[test]
fn error_values_compare_and_print() {
    assert_ne!(AllocError::Exhausted, AllocError::Unsupported);
    let e: AllocError = AllocError::Exhausted;
    let copy: AllocError = e;
    assert_eq!(e, copy);
    assert_eq!(format!("{:?}", AllocError::Unsupported), "Unsupported");
}

#[test]
fn request_of_thirty_three_bytes_takes_a_sixty_four_byte_block() {
    let mut slab = SlabAllocator::new();
    let a: usize = slab.allocate(33).unwrap();
    let b: usize = slab.allocate(33).unwrap();
    assert_eq!(a, 3 * 4096 + 63 * 64);
    assert_eq!(a - b, 64);
}

#[test]
fn mixed_workload_matches_one_stack_per_class() {
    let mut slab = SlabAllocator::new();
    let mut free: Vec<Vec<usize>> = vec![Vec::new(); CLASS_COUNT];
    let mut carved: Vec<bool> = vec![false; CLASS_COUNT];
    let mut live: Vec<(usize, usize)> = Vec::new();
    let mut state: u64 = 0x2545_F491_4F6C_DD1D;
    let mut served: usize = 0;
    let mut refused: usize = 0;
    for _ in 0..50_000 {
        state = state.wrapping_mul(6364136223846793005).wrapping_add(1442695040888963407);
        let r: usize = (state >> 33) as usize;
        if r % 5 < 3 || live.is_empty() {
            let size: usize = (r / 5) % 1100;
            let expected: Result<usize, AllocError> = match SIZES.iter().position(|s| size <= *s) {
                None => Err(AllocError::Unsupported),
                Some(c) => {
                    if free[c].is_empty() && !carved[c] {
                        carved[c] = true;
                        for k in 0..REGION_SIZE / SIZES[c] {
                            free[c].push(c * REGION_SIZE + k * SIZES[c]);
                        }
                    }
                    match free[c].pop() {
                        Some(a) => Ok(a),
                        None => Err(AllocError::Exhausted),
                    }
                }
            };
            let got: Result<usize, AllocError> = slab.allocate(size);
            assert_eq!(got, expected);
            match got {
                Ok(a) => {
                    assert!(!live.iter().any(|(b, _)| *b == a));
                    live.push((a, size));
                    served += 1;
                }
                Err(_) => refused += 1,
            }
        } else {
            let i: usize = (r / 5) % live.len();
            let (a, size) = live.swap_remove(i);
            slab.dealloc(a, size);
            let c: usize = SIZES.iter().position(|s| size <= *s).unwrap();
            free[c].push(a);
        }
    }
    assert!(served > 1000);
    assert!(refused > 0);
}
