use ecos_ssc1::heap::{FreeBlock, GlobalAllocator, HEADER_SIZE};

const START: usize = 0x1000;
const END: usize = 0x2000;

fn fresh() -> GlobalAllocator {
    let mut a = GlobalAllocator::new();
    a.init(START, END);
    a
}

fn assert_canonical(a: &GlobalAllocator) {
    let blocks: &Vec<FreeBlock> = a.free_blocks();
    for w in blocks.windows(2) {
        assert!(w[0].addr + w[0].size < w[1].addr, "free list out of order or touching: {:?}", blocks);
    }
}

#[test]
fn allocate_before_init_fails() {
    let mut a = GlobalAllocator::new();
    assert!(!a.is_initialized());
    assert_eq!(a.allocate(16, 4), 0);
    assert!(a.free_blocks().is_empty());
}

#[test]
fn init_makes_one_free_block() {
    let a = fresh();
    assert_eq!(a.free_blocks(), &vec![FreeBlock { addr: START, size: END - START }]);
}

#[test]
fn first_allocation_is_aligned_and_large_enough() {
    let mut a = fresh();
    let p = a.allocate(64, 4);
    assert_ne!(p, 0);
    assert_eq!(p % 4, 0);
    assert!(a.payload_size(p) >= 64);
    assert_eq!(p, START + HEADER_SIZE);
    assert_eq!(a.free_blocks(), &vec![FreeBlock { addr: START + 72, size: END - START - 72 }]);
}

#[test]
fn freed_middle_block_is_reused_first_fit() {
    let mut a = fresh();
    let first = a.allocate(100, 4);
    let second = a.allocate(200, 4);
    let third = a.allocate(300, 4);
    assert!(first != 0 && second != 0 && third != 0);
    a.deallocate(second);
    let fourth = a.allocate(150, 4);
    assert_eq!(fourth, second);
    assert_canonical(&a);
}

#[test]
fn adjacent_frees_coalesce_in_either_order() {
    for a_first in [true, false] {
        let mut a = fresh();
        let pa = a.allocate(40, 4);
        let pb = a.allocate(56, 4);
        let pc = a.allocate(24, 4);
        assert_eq!(pb, pa + 48);
        if a_first {
            a.deallocate(pa);
            a.deallocate(pb);
        } else {
            a.deallocate(pb);
            a.deallocate(pa);
        }
        assert_eq!(a.free_blocks().len(), 2);
        assert_eq!(a.free_blocks()[0], FreeBlock { addr: pa - HEADER_SIZE, size: 48 + 64 });
        a.deallocate(pc);
        assert_eq!(a.free_blocks(), &vec![FreeBlock { addr: START, size: END - START }]);
    }
}

#[test]
fn three_touching_free_blocks_merge_into_one() {
    let mut a = fresh();
    let first = a.allocate(16, 4);
    let second = a.allocate(16, 4);
    let third = a.allocate(16, 4);
    let _keep = a.allocate(16, 4);
    a.deallocate(first);
    a.deallocate(third);
    assert_eq!(a.free_blocks().len(), 3);
    a.deallocate(second);
    assert_eq!(a.free_blocks().len(), 2);
    assert_eq!(a.free_blocks()[0], FreeBlock { addr: START, size: 72 });
}

#[test]
fn shrinking_resize_keeps_the_block() {
    let mut a = fresh();
    let p = a.allocate(32, 4);
    let before: Vec<FreeBlock> = a.free_blocks().clone();
    let q = a.resize(p, 4, 8);
    assert_eq!(q, p);
    assert_eq!(a.free_blocks(), &before);
    assert_eq!(a.payload_size(p), 32);
}

#[test]
fn growing_resize_that_cannot_fit_fails_and_keeps_the_block() {
    let mut a = fresh();
    let p = a.allocate(8, 4);
    let other = a.allocate(100, 4);
    assert_ne!(other, 0);
    a.write(p, &[1, 2, 3, 4, 5, 6, 7, 8]);
    let before: Vec<FreeBlock> = a.free_blocks().clone();
    assert_eq!(a.resize(p, 4, 4096), 0);
    assert_eq!(a.free_blocks(), &before);
    assert_eq!(a.read(p, 8), vec![1, 2, 3, 4, 5, 6, 7, 8]);
}

#[test]
fn growing_resize_moves_and_copies() {
    let mut a = fresh();
    let p = a.allocate(8, 4);
    let _fence = a.allocate(8, 4);
    a.write(p, &[9, 8, 7, 6, 5, 4, 3, 2]);
    let q = a.resize(p, 4, 64);
    assert_ne!(q, 0);
    assert_ne!(q, p);
    assert!(a.payload_size(q) >= 64);
    assert_eq!(a.read(q, 8), vec![9, 8, 7, 6, 5, 4, 3, 2]);
    assert_eq!(a.free_blocks()[0], FreeBlock { addr: p - HEADER_SIZE, size: 16 });
}

#[test]
fn resize_to_zero_frees_and_resize_of_null_allocates() {
    let mut a = fresh();
    let p = a.resize(0, 4, 24);
    assert_eq!(p, START + HEADER_SIZE);
    assert_eq!(a.resize(p, 4, 0), 0);
    assert_eq!(a.free_blocks(), &vec![FreeBlock { addr: START, size: END - START }]);
}

#[test]
fn exhausting_then_freeing_everything_restores_the_heap() {
    let mut a = fresh();
    let mut live = Vec::new();
    loop {
        let p = a.allocate(16, 4);
        if p == 0 {
            break;
        }
        live.push(p);
    }
    assert!(live.len() > 100);
    for (i, p) in live.iter().enumerate() {
        if i % 2 == 0 {
            a.deallocate(*p);
        }
    }
    for (i, p) in live.iter().enumerate() {
        if i % 2 == 1 {
            a.deallocate(*p);
        }
    }
    assert_eq!(a.free_blocks(), &vec![FreeBlock { addr: START, size: END - START }]);
    let whole = a.allocate(END - START - HEADER_SIZE, 4);
    assert_eq!(whole, START + HEADER_SIZE);
}

#[test]
fn whole_heap_full_circle() {
    let mut a = fresh();
    let size = END - START - HEADER_SIZE;
    let p = a.allocate(size, 4);
    assert_eq!(p, START + HEADER_SIZE);
    assert!(a.free_blocks().is_empty());
    assert_eq!(a.allocate(1, 4), 0);
    a.deallocate(p);
    let q = a.allocate(size, 4);
    assert_eq!(q, p);
    assert!(a.payload_size(q) >= size);
}

#[test]
fn pattern_survives_churn_elsewhere() {
    let mut a = fresh();
    let p = a.allocate(32, 4);
    let pattern: Vec<u8> = (0..32u8).map(|i| i.wrapping_mul(37)).collect();
    a.write(p, &pattern);
    let mut others = Vec::new();
    for i in 0..20usize {
        let q = a.allocate(8 + i * 4, 4);
        assert_ne!(q, 0);
        a.write(q, &vec![0xEE; 8 + i * 4]);
        others.push(q);
        if i % 3 == 0 {
            a.deallocate(others.remove(0));
        }
    }
    for q in others {
        a.deallocate(q);
    }
    assert_eq!(a.read(p, 32), pattern);
}

#[test]
fn second_init_is_a_no_op() {
    let mut once = fresh();
    let mut twice = fresh();
    twice.init(0x8000, 0x9000);
    assert!(twice.is_initialized());
    for size in [10usize, 200, 3, 64] {
        assert_eq!(once.allocate(size, 4), twice.allocate(size, 4));
    }
    assert_eq!(once.free_blocks(), twice.free_blocks());
}

#[test]
fn live_allocations_never_overlap() {
    let mut a = fresh();
    let mut spans: Vec<(usize, usize)> = Vec::new();
    for (i, (size, align)) in [(5usize, 1usize), (17, 2), (64, 4), (3, 8), (100, 16), (1, 4)].iter().enumerate() {
        let p = a.allocate(*size, *align);
        assert_ne!(p, 0);
        assert_eq!(p % align, 0);
        assert_eq!(p % 4, 0);
        for &(q, n) in &spans {
            assert!(p + size <= q || q + n <= p, "allocation {} overlaps", i);
        }
        spans.push((p, *size));
    }
    assert_canonical(&a);
}

#[test]
fn small_remainder_is_not_split() {
    let mut a = GlobalAllocator::new();
    a.init(START, START + 64);
    let p = a.allocate(48, 4);
    assert_eq!(p, START + HEADER_SIZE);
    assert_eq!(a.payload_size(p), 56);
    assert!(a.free_blocks().is_empty());
}

#[test]
fn remainder_of_min_block_size_is_split() {
    let mut a = GlobalAllocator::new();
    a.init(START, START + 64);
    let p = a.allocate(44, 4);
    assert_eq!(a.payload_size(p), 44);
    assert_eq!(a.free_blocks(), &vec![FreeBlock { addr: START + 52, size: 12 }]);
}

#[test]
fn larger_alignment_pads_and_rounds_the_size() {
    let mut a = fresh();
    let p = a.allocate(5, 16);
    assert_eq!(p, 0x1020);
    assert_eq!(a.payload_size(p), 16);
    assert_eq!(
        a.free_blocks(),
        &vec![FreeBlock { addr: START, size: 24 }, FreeBlock { addr: 0x1030, size: END - 0x1030 }]
    );
    a.deallocate(p);
    assert_eq!(a.free_blocks(), &vec![FreeBlock { addr: START, size: END - START }]);
}

#[test]
fn oversized_requests_fail() {
    let mut a = fresh();
    assert_eq!(a.allocate(usize::MAX, 4), 0);
    assert_eq!(a.allocate(usize::MAX - 3, 8), 0);
    assert_eq!(a.allocate(4096, 4), 0);
    assert_eq!(a.free_blocks(), &vec![FreeBlock { addr: START, size: END - START }]);
}

#[test]
fn null_deallocate_is_a_no_op() {
    let mut a = fresh();
    let p = a.allocate(8, 4);
    let before: Vec<FreeBlock> = a.free_blocks().clone();
    a.deallocate(0);
    assert_eq!(a.free_blocks(), &before);
    assert_ne!(p, 0);
}

#[test]
fn zeroed_allocation_clears_old_contents() {
    let mut a = fresh();
    let p = a.allocate(16, 4);
    a.write(p, &[0xAA; 16]);
    a.deallocate(p);
    let q = a.allocate_zeroed(16, 4);
    assert_eq!(q, p);
    assert_eq!(a.read(q, 16), vec![0; 16]);
}

#[test]
fn header_records_the_block_size() {
    let mut a = fresh();
    let p = a.allocate(300, 4);
    assert_eq!(a.payload_size(p), 300);
    let q = a.allocate(1, 4);
    assert_eq!(a.payload_size(q), 4);
    a.deallocate(p);
    assert_eq!(a.payload_size(q), 4);
}

#[test]
fn alignment_above_the_minimum_is_met_with_a_free_gap() {
    let mut a = fresh();
    let p = a.allocate(4, 4);
    assert_eq!(p, START + HEADER_SIZE);
    let q = a.allocate(16, 16);
    assert_eq!(q, 0x1020);
    assert_eq!(q % 16, 0);
    assert_eq!(a.free_blocks()[0], FreeBlock { addr: 0x100C, size: 12 });
    let r = a.allocate(8, 8);
    assert_eq!(r % 8, 0);
    assert!(r >= q + 16);
    let s = a.allocate(4, 4);
    assert_eq!(s, 0x100C + HEADER_SIZE);
    assert_eq!(a.payload_size(s), 4);
}

#[test]
fn small_gap_before_an_aligned_payload_is_widened() {
    let mut a = fresh();
    let p = a.allocate(4, 4);
    let q = a.allocate(8, 8);
    assert_eq!(p, 0x1008);
    assert_eq!(q, 0x1020);
    assert_eq!(a.free_blocks()[0], FreeBlock { addr: 0x100C, size: 12 });
}

#[test]
fn unaligned_heap_start_still_gives_aligned_payloads() {
    let mut a = GlobalAllocator::new();
    a.init(0x1001, 0x2001);
    let p = a.allocate(10, 4);
    assert_eq!(p, 0x1018);
    assert_eq!(a.free_blocks()[0], FreeBlock { addr: 0x1001, size: 0x1010 - 0x1001 });
    let q = a.allocate(3, 32);
    assert_eq!(q % 32, 0);
    a.deallocate(p);
    a.deallocate(q);
    assert_eq!(a.free_blocks(), &vec![FreeBlock { addr: 0x1001, size: 0x1000 }]);
}

#[test]
fn deallocate_before_init_is_a_no_op() {
    let mut a = GlobalAllocator::new();
    a.deallocate(0x1008);
    assert!(!a.is_initialized());
    assert!(a.free_blocks().is_empty());
}

#[test]
fn zeroed_and_resized_allocations_are_aligned() {
    let mut a = fresh();
    let _p = a.allocate(4, 4);
    let z = a.allocate_zeroed(10, 64);
    assert_eq!(z % 64, 0);
    assert_eq!(a.read(z, 10), vec![0; 10]);
    let r = a.resize(z, 128, 200);
    assert_ne!(r, 0);
    assert_eq!(r % 128, 0);
}
