use aarch64_kernel::memory::framealloc::{
    alloc_frame, expt2, find_buddy, free_frame, freeblock_buddy, init_frame_allocator,
    largest_class_for, log2, log_size_index, make_freeblock, valid_block_size, FrameAllocator,
    FramesIterator,
};
use aarch64_kernel::memory::{Paddr, GIGABYTE, PAGE_SIZE};
use std::collections::VecDeque;

fn seeded(start: u64, end: u64) -> FrameAllocator {
    let mut frames = FrameAllocator::new();
    init_frame_allocator(&mut frames, Paddr::from_raw(start), Paddr::from_raw(end));
    frames
}

fn take(frames: &mut FrameAllocator, size: u64) -> Option<u64> {
    alloc_frame(frames, size).map(|p| p.raw())
}

#[test]
fn log2_counts_the_factors_of_two() {
    assert_eq!(log2(0x1000), 12);
    assert_eq!(log2(0x4000_0000), 30);
    assert_eq!(log2(0x3000), 12);
    assert_eq!(log2(1), 0);
    assert_eq!(log2(0), 64);
}

#[test]
fn expt2_is_the_power_of_two() {
    assert_eq!(expt2(0), 1);
    assert_eq!(expt2(12), 0x1000);
    assert_eq!(expt2(30), 0x4000_0000);
    assert_eq!(expt2(63), 0x8000_0000_0000_0000);
}

#[test]
fn log_size_index_starts_at_the_page() {
    assert_eq!(log_size_index(12), 0);
    assert_eq!(log_size_index(30), 18);
}

#[test]
fn valid_block_size_takes_the_powers_of_two_in_range_only() {
    assert!(valid_block_size(PAGE_SIZE));
    assert!(valid_block_size(0x2000));
    assert!(valid_block_size(GIGABYTE));
    assert!(!valid_block_size(0x800));
    assert!(!valid_block_size(0x8000_0000));
    assert!(!valid_block_size(0x3000));
    assert!(!valid_block_size(0x1001));
    assert!(!valid_block_size(0));
}

#[test]
fn buddy_flips_the_lowest_bit_of_the_quotient() {
    assert_eq!(freeblock_buddy(Paddr::from_raw(0x2000), 12).raw(), 0x3000);
    assert_eq!(freeblock_buddy(Paddr::from_raw(0x3000), 12).raw(), 0x2000);
    assert_eq!(freeblock_buddy(Paddr::from_raw(0x2000), 13).raw(), 0);
    assert_eq!(freeblock_buddy(Paddr::from_raw(0), 30).raw(), 0x4000_0000);
    assert_eq!(freeblock_buddy(Paddr::from_raw(0xc000_0000), 30).raw(), 0x8000_0000);
    assert_eq!(freeblock_buddy(Paddr::from_raw(0x2fff), 12).raw(), 0x3000);
}

#[test]
fn buddy_of_the_buddy_is_the_block() {
    for log_size in 12..=30usize {
        for q in [0u64, 1, 2, 3, 5] {
            let addr = q << log_size;
            if addr < 0x1_0000_0000 {
                let block = Paddr::from_raw(addr);
                let buddy = freeblock_buddy(block, log_size);
                assert_ne!(buddy, block);
                assert_eq!(freeblock_buddy(buddy, log_size), block);
            }
        }
    }
}

#[test]
fn split_gives_the_two_halves_and_merge_gives_the_block_back() {
    let block = make_freeblock(Paddr::from_raw(0x8000), 15);
    let (lower, upper) = block.split();
    assert_eq!((lower.start().raw(), lower.log_size()), (0x8000, 14));
    assert_eq!((upper.start().raw(), upper.log_size()), (0xc000, 14));
    let whole = upper.merge(lower.start());
    assert_eq!((whole.start().raw(), whole.log_size()), (0x8000, 15));
    let again = make_freeblock(Paddr::from_raw(0x8000), 14).merge(Paddr::from_raw(0xc000));
    assert_eq!((again.start().raw(), again.log_size()), (0x8000, 15));
}

#[test]
fn find_buddy_takes_the_first_occurrence_out() {
    let list: VecDeque<u64> = VecDeque::from(vec![0x5000, 0x3000, 0x9000]);
    let (found, rest) = find_buddy(Paddr::from_raw(0x2000), 12, list);
    let found = found.expect("the buddy is in the list");
    assert_eq!((found.start().raw(), found.log_size()), (0x3000, 12));
    assert_eq!(rest, VecDeque::from(vec![0x5000, 0x9000]));

    let list: VecDeque<u64> = VecDeque::from(vec![0x5000, 0x9000]);
    let (found, rest) = find_buddy(Paddr::from_raw(0x2000), 12, list);
    assert!(found.is_none());
    assert_eq!(rest, VecDeque::from(vec![0x5000, 0x9000]));

    let (found, rest) = find_buddy(Paddr::from_raw(0x2000), 12, VecDeque::new());
    assert!(found.is_none());
    assert!(rest.is_empty());
}

#[test]
fn largest_class_is_bounded_by_alignment_length_and_the_largest_class() {
    assert_eq!(largest_class_for(12, 0x4000), Some(12));
    assert_eq!(largest_class_for(14, 0x3000), Some(13));
    assert_eq!(largest_class_for(14, 0x4000), Some(14));
    assert_eq!(largest_class_for(64, 0x1_0000_0000), Some(30));
    assert_eq!(largest_class_for(31, 0x4000_0000), Some(30));
    assert_eq!(largest_class_for(20, 0x1000), Some(12));
    assert_eq!(largest_class_for(11, 0x4000), None);
    assert_eq!(largest_class_for(20, 0xfff), None);
    assert_eq!(largest_class_for(0, 0), None);
}

#[test]
fn frames_iterator_cuts_from_left_to_right() {
    let mut rest = FramesIterator::new(Paddr::from_raw(0x1000), Paddr::from_raw(0x5000));
    let mut cut = Vec::new();
    while let Some((addr, log_size)) = rest.next() {
        cut.push((addr.raw(), log_size));
    }
    assert_eq!(cut, vec![(0x1000, 12), (0x2000, 13), (0x4000, 12)]);
    assert_eq!(rest.next(), None);
}

#[test]
fn frames_iterator_stops_where_no_page_fits() {
    let mut rest = FramesIterator::new(Paddr::from_raw(0x1000), Paddr::from_raw(0x2fff));
    assert_eq!(rest.next().map(|(a, l)| (a.raw(), l)), Some((0x1000, 12)));
    assert_eq!(rest.next(), None);
    let mut unaligned = FramesIterator::new(Paddr::from_raw(0x1800), Paddr::from_raw(0x8000));
    assert_eq!(unaligned.next(), None);
    let mut empty = FramesIterator::new(Paddr::from_raw(0x3000), Paddr::from_raw(0x3000));
    assert_eq!(empty.next(), None);
    let mut backwards = FramesIterator::new(Paddr::from_raw(0x3000), Paddr::from_raw(0x1000));
    assert_eq!(backwards.next(), None);
}

#[test]
fn a_new_allocator_holds_nothing() {
    let mut frames = FrameAllocator::new();
    assert_eq!(frames.free_bytes(), 0);
    for log_size in 12..=30 {
        assert!(frames.free_blocks(log_size).is_empty());
    }
    assert_eq!(take(&mut frames, PAGE_SIZE), None);
    assert_eq!(take(&mut frames, GIGABYTE), None);
}

#[test]
fn seeding_tiles_the_range() {
    let frames = seeded(0x1000, 0x5000);
    assert_eq!(frames.free_blocks(12), vec![0x4000, 0x1000]);
    assert_eq!(frames.free_blocks(13), vec![0x2000]);
    for log_size in 14..=30 {
        assert!(frames.free_blocks(log_size).is_empty());
    }
    assert_eq!(frames.free_bytes(), 0x4000);
}

#[test]
fn seeding_a_large_range_covers_it_with_aligned_blocks() {
    let start = 0x0008_3000u64;
    let end = 0xffff_f000u64;
    let frames = seeded(start, end);
    let mut blocks: Vec<(u64, u64)> = Vec::new();
    for log_size in 12..=30usize {
        for addr in frames.free_blocks(log_size) {
            assert_eq!(addr % (1u64 << log_size), 0);
            blocks.push((addr, 1u64 << log_size));
        }
    }
    blocks.sort();
    let mut cursor = start;
    for (addr, size) in blocks {
        assert_eq!(addr, cursor);
        assert!(size <= GIGABYTE);
        cursor += size;
    }
    assert_eq!(cursor, end);
    assert_eq!(frames.free_bytes(), (end - start) as u128);
}

#[test]
fn seeds_four_pages_and_hands_out_each_once() {
    let mut frames = seeded(0x1000, 0x5000);
    assert_eq!(take(&mut frames, 0x1000), Some(0x4000));
    assert_eq!(take(&mut frames, 0x1000), Some(0x1000));
    assert_eq!(take(&mut frames, 0x1000), Some(0x2000));
    assert_eq!(take(&mut frames, 0x1000), Some(0x3000));
    assert_eq!(take(&mut frames, 0x1000), None);
    assert_eq!(frames.free_bytes(), 0);
}

#[test]
fn one_block_of_the_largest_class_is_handed_out_once() {
    let mut frames = seeded(0x4000_0000, 0x8000_0000);
    assert_eq!(frames.free_blocks(30), vec![0x4000_0000]);
    assert_eq!(take(&mut frames, GIGABYTE), Some(0x4000_0000));
    assert_eq!(take(&mut frames, GIGABYTE), None);
}

#[test]
fn a_request_splits_the_smallest_block_that_is_large_enough() {
    let mut frames = seeded(0x10000, 0x20000);
    assert_eq!(frames.free_blocks(16), vec![0x10000]);
    assert_eq!(take(&mut frames, 0x1000), Some(0x10000));
    assert_eq!(frames.free_blocks(12), vec![0x11000]);
    assert_eq!(frames.free_blocks(13), vec![0x12000]);
    assert_eq!(frames.free_blocks(14), vec![0x14000]);
    assert_eq!(frames.free_blocks(15), vec![0x18000]);
    assert!(frames.free_blocks(16).is_empty());
    assert_eq!(frames.free_bytes(), 0xf000);
    assert_eq!(take(&mut frames, 0x4000), Some(0x14000));
    assert_eq!(take(&mut frames, 0x10000), None);
}

#[test]
fn every_frame_is_aligned_to_its_size() {
    let mut frames = seeded(0x0010_0000, 0x0100_0000);
    for size in [0x1000u64, 0x4000, 0x1000, 0x20_0000, 0x8000, 0x1000, 0x10_0000, 0x2000] {
        let frame = take(&mut frames, size).expect("memory is left");
        assert_eq!(frame % size, 0);
        assert!(frame >= 0x0010_0000 && frame + size <= 0x0100_0000);
    }
}

#[test]
fn free_bytes_and_bytes_in_use_add_up_to_the_range() {
    let total: u128 = 0x40_0000;
    let mut frames = seeded(0x40_0000, 0x80_0000);
    let mut in_use: Vec<(u64, u64)> = Vec::new();
    let sizes = [0x1000u64, 0x8000, 0x2000, 0x10_0000, 0x1000, 0x4000, 0x20_0000, 0x1000];
    for (step, size) in sizes.iter().enumerate() {
        if let Some(frame) = take(&mut frames, *size) {
            in_use.push((frame, *size));
        }
        if step % 3 == 2 {
            let (frame, size) = in_use.remove(0);
            free_frame(&mut frames, Paddr::from_raw(frame), size);
        }
        let used: u128 = in_use.iter().map(|(_, s)| *s as u128).sum();
        assert_eq!(frames.free_bytes() + used, total);
    }
    while let Some((frame, size)) = in_use.pop() {
        free_frame(&mut frames, Paddr::from_raw(frame), size);
    }
    assert_eq!(frames.free_bytes(), total);
    assert_eq!(frames.free_blocks(22), vec![0x40_0000]);
}

#[test]
fn freeing_both_halves_in_either_order_gives_the_block_back() {
    for lower_first in [true, false] {
        let mut frames = seeded(0x8000, 0x10000);
        assert_eq!(take(&mut frames, 0x8000), Some(0x8000));
        let (first, second) = if lower_first { (0x8000, 0xc000) } else { (0xc000, 0x8000) };
        free_frame(&mut frames, Paddr::from_raw(first), 0x4000);
        assert_eq!(frames.free_blocks(14), vec![first]);
        free_frame(&mut frames, Paddr::from_raw(second), 0x4000);
        assert!(frames.free_blocks(14).is_empty());
        assert_eq!(frames.free_blocks(15), vec![0x8000]);
        assert_eq!(frames.free_bytes(), 0x8000);
    }
}

#[test]
fn a_request_and_its_return_leave_the_lists_as_they_were() {
    let mut frames = seeded(0x10_0000, 0x20_0000);
    let frame = take(&mut frames, 0x1000).expect("memory is left");
    assert_eq!(frame, 0x10_0000);
    free_frame(&mut frames, Paddr::from_raw(frame), 0x1000);
    for log_size in 12..=30 {
        let expected: Vec<u64> = if log_size == 20 { vec![0x10_0000] } else { vec![] };
        assert_eq!(frames.free_blocks(log_size), expected);
    }
}

#[test]
fn a_block_whose_buddy_is_in_use_stays_in_its_class() {
    let mut frames = seeded(0x2000, 0x4000);
    assert_eq!(take(&mut frames, 0x1000), Some(0x2000));
    assert_eq!(take(&mut frames, 0x1000), Some(0x3000));
    free_frame(&mut frames, Paddr::from_raw(0x3000), 0x1000);
    assert_eq!(frames.free_blocks(12), vec![0x3000]);
    assert!(frames.free_blocks(13).is_empty());
}

#[test]
fn blocks_of_the_largest_class_do_not_merge() {
    let mut frames = seeded(0, 0x8000_0000);
    assert_eq!(frames.free_blocks(30), vec![0x4000_0000, 0]);
    assert_eq!(take(&mut frames, GIGABYTE), Some(0x4000_0000));
    free_frame(&mut frames, Paddr::from_raw(0x4000_0000), GIGABYTE);
    assert_eq!(frames.free_blocks(30), vec![0x4000_0000, 0]);
    assert_eq!(frames.free_bytes(), 0x8000_0000);
}

#[test]
fn add_block_puts_the_block_at_the_head_without_merging() {
    let mut frames = FrameAllocator::new();
    frames.add_block(Paddr::from_raw(0x2000), 12);
    frames.add_block(Paddr::from_raw(0x3000), 12);
    assert_eq!(frames.free_blocks(12), vec![0x3000, 0x2000]);
    assert!(frames.free_blocks(13).is_empty());
    assert_eq!(frames.free_bytes(), 0x2000);
}

#[test]
fn can_free_tells_the_blocks_that_may_be_given_back() {
    let mut frames = seeded(0x8000, 0x10000);
    let frame = alloc_frame(&mut frames, 0x1000).expect("memory is left");
    assert_eq!(frame.raw(), 0x8000);
    assert!(frames.can_free(frame, 0x1000));
    assert!(!frames.can_free(frame, 0x2000));
    assert!(!frames.can_free(frame, 0x3000));
    assert!(!frames.can_free(Paddr::from_raw(0x9000), 0x1000));
    assert!(!frames.can_free(Paddr::from_raw(0x8800), 0x1000));
    assert!(frames.can_free(Paddr::from_raw(0x20000), 0x1000));
    free_frame(&mut frames, frame, 0x1000);
    assert!(!frames.can_free(frame, 0x1000));
}
