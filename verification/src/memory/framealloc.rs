//! A buddy allocator for physically contiguous frames.

use vstd::prelude::*;
use std::collections::VecDeque;
use vstd::arithmetic::power2::{pow2, lemma_pow2_pos, lemma2_to64};
use vstd::arithmetic::div_mod::{lemma_fundamental_div_mod};
use vstd::arithmetic::mul::{lemma_mul_inequality};
use vstd::bits::{lemma_u64_shl_is_mul, lemma_u64_shr_is_div, lemma_u64_pow2_no_overflow};
use crate::memory::{Paddr, MEM_SIZE};
use crate::memory::framealloc::classes::{
    MIN_BLOCK, MAX_BLOCK, N_BLOCK_SIZES, is_class, class_bytes, is_block_size, size_class,
    aligned_to, buddy_of, is_log2, lemma_trailing_zeros_is_log2, lemma_log2_unique,
    lemma_log2_of_pow2, lemma_class_bytes_bound, lemma_class_bytes_pos, lemma_halves,
    lemma_buddy_pair, lemma_block_in_memory, lemma_size_class,
};
use crate::memory::framealloc::model::{
    block_ok, apart, has_block, lists_wf, clear_of, free_bytes, free_bytes_below, with_block,
    without_block, alloc_addr, after_alloc, after_free, lemma_with_block, lemma_first_free_class,
    lemma_alloc_head, lemma_alloc_step, lemma_after_alloc, lemma_after_free, lemma_free_step,
};
use crate::memory::framealloc::seeding::{
    fits, largest_fit, frames, blocks_bytes, with_blocks, range_clear, class_allowed,
    lemma_aligned_iff, lemma_largest_fit, lemma_with_blocks_unfold, lemma_with_block_in_range,
};

pub mod classes;
pub mod model;
pub mod seeding;
pub mod laws;

verus! {

/// How often two divides `size`: for a power of two, its logarithm; 64
/// for zero.
pub fn log2(size: u64) -> (r: usize)
    ensures
        is_log2(size as int, r as int),
{
    proof {
        lemma_trailing_zeros_is_log2(size);
    }
    size.trailing_zeros() as usize
}

/// Two to the power `log_size`.
pub fn expt2(log_size: usize) -> (r: u64)
    requires
        log_size < 64,
    ensures
        r == pow2(log_size as nat),
{
    proof {
        lemma_u64_pow2_no_overflow(log_size as nat);
        lemma_u64_shl_is_mul(1, log_size as u64);
    }
    1 << log_size
}

/// The ordinal of the size class whose blocks hold two to the `log_size`
/// bytes.
pub fn log_size_index(log_size: usize) -> (r: usize)
    requires
        MIN_BLOCK <= log_size,
    ensures
        r == log_size - MIN_BLOCK,
{
    log_size - MIN_BLOCK
}

/// Whether `size` is a power of two from one page to one gigabyte.
pub fn valid_block_size(size: u64) -> (r: bool)
    ensures
        r == is_block_size(size as int),
{
    let log_size = log2(size);
    let r = log_size <= MAX_BLOCK && log_size >= MIN_BLOCK && expt2(log_size) == size;
    proof {
        if r {
            assert(size == class_bytes(log_size - MIN_BLOCK));
        }
        if is_block_size(size as int) {
            let class = size_class(size as int);
            lemma_log2_of_pow2((class + MIN_BLOCK) as nat);
            lemma_log2_unique(size as int, log_size as int, class + MIN_BLOCK);
        }
    }
    r
}

/// The address of the buddy of the block of two to the `log_size` bytes
/// that holds `blk`, whether or not a block stands there: the quotient of
/// `blk` by the block size with its lowest bit flipped, times the block
/// size.
pub fn freeblock_buddy(blk: Paddr, log_size: usize) -> (r: Paddr)
    requires
        MIN_BLOCK <= log_size <= MAX_BLOCK,
    ensures
        r@ == buddy_of(blk@ as int, log_size - MIN_BLOCK),
{
    let ptr = blk.raw();
    let aligned = ptr >> log_size;
    let flipped = aligned ^ 1;
    proof {
        let shift = log_size as u64;
        let size = pow2(log_size as nat) as int;
        let top = 0xffff_ffffu64 >> shift;
        lemma_pow2_pos(log_size as nat);
        lemma_u64_shr_is_div(ptr, shift);
        lemma_u64_shr_is_div(0xffff_ffffu64, shift);
        assert(flipped <= top && (aligned % 2 == 0 ==> flipped == aligned + 1) && (aligned % 2 == 1
            ==> flipped == aligned - 1)) by (bit_vector)
            requires
                ptr < 0x1_0000_0000,
                shift <= 30,
                aligned == ptr >> shift,
                flipped == aligned ^ 1,
                top == 0xffff_ffffu64 >> shift,
        ;
        lemma_fundamental_div_mod(0xffff_ffff, size);
        lemma_mul_inequality(flipped as int, top as int, size);
        assert(top * size == size * top) by (nonlinear_arith);
        lemma_u64_shl_is_mul(flipped, shift);
    }
    Paddr::from_raw(flipped << log_size)
}

/// A handle to a block of memory that is not in use: where it starts, and
/// the logarithm of its size. Who holds the handle owns the block.
pub struct FreeBlockPtr {
    start: Paddr,
    log_size: usize,
}

impl View for FreeBlockPtr {
    type V = (int, int);

    /// The address of the block and the ordinal of its class.
    closed spec fn view(&self) -> (int, int) {
        (self.start@ as int, self.log_size - MIN_BLOCK)
    }
}

impl FreeBlockPtr {
    /// Whether a block of this class may stand at this address.
    pub open spec fn wf(&self) -> bool {
        block_ok(self@.0, self@.1)
    }

    /// Where the block starts.
    pub fn start(&self) -> (r: Paddr)
        ensures
            r@ == self@.0,
    {
        self.start
    }

    /// The logarithm of the size of the block.
    pub fn log_size(&self) -> (r: usize)
        ensures
            r == self@.1 + MIN_BLOCK,
    {
        self.log_size
    }

    /// The two halves of the block, the lower one first.
    pub fn split(self) -> (r: (Self, Self))
        requires
            self.wf(),
            self@.1 > 0,
        ensures
            r.0@ == (self@.0, self@.1 - 1),
            r.1@ == (self@.0 + class_bytes(self@.1 - 1), self@.1 - 1),
            r.0.wf(),
            r.1.wf(),
    {
        let newsize = self.log_size - 1;
        let my_start = self.start;
        proof {
            lemma_halves(self@.0, self@.1 - 1);
            lemma_class_bytes_pos(self@.1 - 1);
        }
        let buddy = freeblock_buddy(my_start, newsize);
        (make_freeblock(my_start, newsize), make_freeblock(buddy, newsize))
    }

    /// The block of the next class that this block and its buddy make up.
    pub fn merge(self, buddy: Paddr) -> (r: Self)
        requires
            self.wf(),
            self@.1 < N_BLOCK_SIZES - 1,
            buddy@ == buddy_of(self@.0, self@.1),
        ensures
            r@ == (
                if self@.0 <= buddy@ {
                    self@.0
                } else {
                    buddy@ as int
                },
                self@.1 + 1,
            ),
            r.wf(),
    {
        proof {
            lemma_buddy_pair(self@.0, self@.1);
            lemma_class_bytes_pos(self@.1);
            use_type_invariant(&buddy);
            lemma_block_in_memory(buddy@ as int, self@.1);
        }
        let start = if self.start.raw() <= buddy.raw() {
            self.start
        } else {
            buddy
        };
        let size = self.log_size + 1;
        make_freeblock(start, size)
    }
}

/// The handle to the free block of two to the `log_size` bytes at `start`.
pub fn make_freeblock(start: Paddr, log_size: usize) -> (r: FreeBlockPtr)
    requires
        MIN_BLOCK <= log_size <= MAX_BLOCK,
        block_ok(start@ as int, log_size - MIN_BLOCK),
    ensures
        r@ == (start@ as int, log_size - MIN_BLOCK),
        r.wf(),
{
    FreeBlockPtr { start, log_size }
}

/// The free lists of the allocator, one per size class.
pub struct FrameAllocator {
    freelist: Vec<VecDeque<u64>>,
}

impl View for FrameAllocator {
    type V = Seq<Seq<u64>>;

    /// The addresses of the free blocks, by the ordinal of their class;
    /// the head of each list comes first.
    closed spec fn view(&self) -> Seq<Seq<u64>> {
        Seq::new(self.freelist.len() as nat, |class: int| self.freelist[class]@)
    }
}

impl FrameAllocator {
    /// Whether the free lists are as they should be.
    pub open spec fn wf(&self) -> bool {
        lists_wf(self@)
    }

    /// An allocator that holds no memory.
    pub fn new() -> (r: Self)
        ensures
            r.wf(),
            r@ == Seq::new(N_BLOCK_SIZES as nat, |class: int| Seq::<u64>::empty()),
    {
        let mut freelist: Vec<VecDeque<u64>> = Vec::new();
        while freelist.len() < N_BLOCK_SIZES
            invariant
                freelist.len() <= N_BLOCK_SIZES,
                forall|class: int| 0 <= class < freelist.len() ==> (#[trigger] freelist[class])@ == Seq::<u64>::empty(),
            decreases N_BLOCK_SIZES - freelist.len(),
        {
            freelist.push(VecDeque::new());
        }
        let r = FrameAllocator { freelist };
        proof {
            assert(r@ =~= Seq::new(N_BLOCK_SIZES as nat, |class: int| Seq::<u64>::empty()));
        }
        r
    }

    /// Puts the block of two to the `log_size` bytes at `start` at the
    /// head of the list of its class, as it is.
    pub fn add_block(&mut self, start: Paddr, log_size: usize)
        requires
            old(self).wf(),
            MIN_BLOCK <= log_size <= MAX_BLOCK,
            aligned_to(start@ as int, log_size - MIN_BLOCK),
            clear_of(old(self)@, start@ as int, log_size - MIN_BLOCK),
        ensures
            final(self).wf(),
            final(self)@ == with_block(old(self)@, start@ as int, log_size - MIN_BLOCK),
            free_bytes(final(self)@) == free_bytes(old(self)@) + class_bytes(log_size - MIN_BLOCK),
    {
        let class = log_size_index(log_size);
        let addr = start.raw();
        proof {
            lemma_block_in_memory(addr as int, class as int);
            lemma_with_block(self@, addr as int, class as int);
        }
        self.freelist[class].push_front(addr);
        proof {
            assert(self@ =~= with_block(old(self)@, addr as int, class as int));
        }
    }
}

impl FrameAllocator {
    /// Takes a block of `size` bytes from the free lists: the head of the
    /// list of its class or, where that list is empty, the lower half of a
    /// block of twice the size taken in the same way, whose upper half
    /// goes to the list. `None` where no block of `size` bytes or more is
    /// free.
    pub fn alloc_block(&mut self, size: u64) -> (r: Option<FreeBlockPtr>)
        requires
            old(self).wf(),
            is_block_size(size as int),
        ensures
            final(self).wf(),
            final(self)@ == after_alloc(old(self)@, size_class(size as int)),
            match r {
                Some(blk) => {
                    &&& alloc_addr(old(self)@, size_class(size as int)) == Some(blk@.0 as u64)
                    &&& blk@.1 == size_class(size as int)
                    &&& blk.wf()
                    &&& clear_of(final(self)@, blk@.0, blk@.1)
                    &&& free_bytes(final(self)@) == free_bytes(old(self)@) - size
                },
                None => {
                    &&& alloc_addr(old(self)@, size_class(size as int)) is None
                    &&& final(self)@ == old(self)@
                },
            },
        decreases N_BLOCK_SIZES - size_class(size as int),
    {
        let log_size = log2(size);
        proof {
            lemma_size_class(size_class(size as int));
            lemma_log2_unique(size as int, log_size as int, size_class(size as int) + MIN_BLOCK);
            lemma_after_alloc(self@, size_class(size as int));
            lemma_first_free_class(self@, size_class(size as int) + 1);
        }
        let class = log_size_index(log_size);
        if let Some(addr) = self.freelist[class].pop_front() {
            proof {
                lemma_alloc_head(old(self)@, class as int);
                assert(self@ =~= without_block(old(self)@, class as int, 0));
            }
            Some(make_freeblock(Paddr::from_raw(addr), log_size))
        } else if log_size == MAX_BLOCK {
            proof {
                assert(self@ =~= old(self)@);
            }
            None
        } else {
            proof {
                assert(self@ =~= old(self)@);
                lemma_alloc_step(old(self)@, class as int);
                lemma_size_class(class + 1);
                lemma_class_bytes_pos(class as int);
                lemma_class_bytes_bound(class as int);
                lemma2_to64();
                lemma_u64_shl_is_mul(size, 1);
            }
            if let Some(larger) = self.alloc_block(size << 1) {
                let ghost above = self@;
                let (ret, buddy) = larger.split();
                self.freelist[class].push_front(buddy.start().raw());
                proof {
                    assert(self@ =~= with_block(above, buddy@.0, class as int));
                }
                Some(ret)
            } else {
                None
            }
        }
    }
}

/// Looks for the buddy of the block of two to the `log_size` bytes at
/// `start` in a free list. Where it is there, its first occurrence leaves
/// the list and is handed out.
pub fn find_buddy(start: Paddr, log_size: usize, freelist: VecDeque<u64>) -> (r: (
    Option<FreeBlockPtr>,
    VecDeque<u64>,
))
    requires
        MIN_BLOCK <= log_size <= MAX_BLOCK,
    ensures
        r.0 is Some == freelist@.contains(buddy_of(start@ as int, log_size - MIN_BLOCK) as u64),
        r.0 matches Some(buddy) ==> buddy@ == (
            buddy_of(start@ as int, log_size - MIN_BLOCK),
            log_size - MIN_BLOCK,
        ),
        r.1@ == freelist@.remove_value(buddy_of(start@ as int, log_size - MIN_BLOCK) as u64),
{
    let target = freeblock_buddy(start, log_size);
    let wanted = target.raw();
    let mut list = freelist;
    let n = list.len();
    let mut i: usize = 0;
    while i < n
        invariant
            list@ == freelist@,
            n == list@.len(),
            i <= n,
            wanted == buddy_of(start@ as int, log_size - MIN_BLOCK),
            target@ == wanted,
            forall|k: int| 0 <= k < i ==> list@[k] != wanted,
        decreases n - i,
    {
        if list[i] == wanted {
            proof {
                freelist@.index_of_first_ensures(wanted);
            }
            let _ = list.remove(i);
            return (Some(FreeBlockPtr { start: target, log_size }), list);
        }
        i += 1;
    }
    proof {
        freelist@.index_of_first_ensures(wanted);
    }
    (None, list)
}

impl FrameAllocator {
    /// Gives the block of `size` bytes at `start` back to the free lists.
    /// Where its buddy is free and the block is not of the largest class,
    /// the buddy leaves its list and the block that the two make up is
    /// given back in their place; else the block becomes the head of the
    /// list of its class.
    pub fn free(&mut self, start: Paddr, size: u64)
        requires
            old(self).wf(),
            is_block_size(size as int),
            aligned_to(start@ as int, size_class(size as int)),
            clear_of(old(self)@, start@ as int, size_class(size as int)),
        ensures
            final(self).wf(),
            final(self)@ == after_free(old(self)@, start@ as int, size_class(size as int)),
            free_bytes(final(self)@) == free_bytes(old(self)@) + size,
        decreases N_BLOCK_SIZES - size_class(size as int),
    {
        let log_size = log2(size);
        let addr = start.raw();
        proof {
            lemma_size_class(size_class(size as int));
            lemma_log2_unique(size as int, log_size as int, size_class(size as int) + MIN_BLOCK);
            lemma_block_in_memory(addr as int, size_class(size as int));
            lemma_after_free(self@, addr as int, size_class(size as int));
        }
        let class = log_size_index(log_size);
        if log_size < MAX_BLOCK {
            let mut tail: VecDeque<u64> = VecDeque::new();
            core::mem::swap(&mut tail, &mut self.freelist[class]);
            let (buddy, tail) = find_buddy(start, log_size, tail);
            self.freelist[class] = tail;
            if let Some(buddy) = buddy {
                proof {
                    assert(self@ =~= old(self)@.update(
                        class as int,
                        old(self)@[class as int].remove_value(
                            buddy_of(addr as int, class as int) as u64,
                        ),
                    ));
                    lemma_free_step(old(self)@, addr as int, class as int);
                    lemma_size_class(class + 1);
                    lemma_class_bytes_pos(class as int);
                }
                let merged = make_freeblock(start, log_size).merge(buddy.start());
                self.free(merged.start(), expt2(merged.log_size()));
                return;
            }
            proof {
                old(self)@[class as int].index_of_first_ensures(
                    buddy_of(addr as int, class as int) as u64,
                );
                assert(self@ =~= old(self)@);
            }
        }
        self.freelist[class].push_front(addr);
        proof {
            assert(self@ =~= with_block(old(self)@, addr as int, class as int));
        }
    }
}

/// The logarithm of the size of the largest block that is of a size
/// class, as aligned as `alignment` allows (the number of times that two
/// divides its address) and not larger than `remaining`; `None` where not
/// even a page is.
pub fn largest_class_for(alignment: usize, remaining: u64) -> (r: Option<usize>)
    ensures
        match r {
            Some(log_size) => {
                &&& class_allowed(alignment as int, remaining as int, log_size as int)
                &&& forall|larger: int|
                    log_size < larger ==> !class_allowed(alignment as int, remaining as int, larger)
            },
            None => forall|any: int| !class_allowed(alignment as int, remaining as int, any),
        },
{
    let mut log_size = if alignment < MAX_BLOCK {
        alignment
    } else {
        MAX_BLOCK
    };
    while log_size >= MIN_BLOCK
        invariant
            log_size <= MAX_BLOCK,
            log_size <= alignment,
            forall|larger: int|
                log_size < larger ==> !class_allowed(alignment as int, remaining as int, larger),
        decreases log_size,
    {
        if expt2(log_size) <= remaining {
            return Some(log_size);
        }
        log_size -= 1;
    }
    None
}

/// What is left to cut of a range of memory.
pub struct FramesIterator {
    start: Paddr,
    end: Paddr,
}

impl View for FramesIterator {
    type V = (int, int);

    /// Where the range that is left starts, and the address up to which
    /// it goes.
    closed spec fn view(&self) -> (int, int) {
        (self.start@ as int, self.end@ as int)
    }
}

impl FramesIterator {
    /// The range from `start` up to `end`, yet to be cut.
    pub fn new(start: Paddr, end: Paddr) -> (r: Self)
        ensures
            r@ == (start@ as int, end@ as int),
    {
        FramesIterator { start, end }
    }

    /// Cuts the next block off the range: the largest one that is aligned
    /// where the range starts and fits into it, with its address and the
    /// logarithm of its size. `None` where not even a page fits there.
    pub fn next(&mut self) -> (r: Option<(Paddr, usize)>)
        ensures
            final(self)@.1 == old(self)@.1,
            match r {
                Some((addr, log_size)) => {
                    &&& MIN_BLOCK <= log_size <= MAX_BLOCK
                    &&& addr@ == old(self)@.0
                    &&& log_size - MIN_BLOCK == largest_fit(old(self)@.0, old(self)@.1 - old(self)@.0)
                    &&& fits(old(self)@.0, old(self)@.1 - old(self)@.0, log_size - MIN_BLOCK)
                    &&& final(self)@.0 == old(self)@.0 + class_bytes(log_size - MIN_BLOCK)
                    &&& frames(old(self)@.0, old(self)@.1) == seq![
                        (addr@ as int, log_size - MIN_BLOCK),
                    ] + frames(final(self)@.0, final(self)@.1)
                },
                None => {
                    &&& final(self)@ == old(self)@
                    &&& frames(old(self)@.0, old(self)@.1) == Seq::<(int, int)>::empty()
                },
            },
    {
        let start = self.start.raw();
        let end = self.end.raw();
        if start >= end {
            return None;
        }
        let space_avail = end - start;
        let best_align = log2(start);
        proof {
            assert forall|class: int| is_class(class) implies (#[trigger] fits(
                start as int,
                space_avail as int,
                class,
            ) <==> class_allowed(
                best_align as int,
                space_avail as int,
                class + MIN_BLOCK,
            )) by {
                lemma_aligned_iff(start as int, best_align as int, class + MIN_BLOCK);
            }
        }
        match largest_class_for(best_align, space_avail) {
            None => {
                proof {
                    lemma_largest_fit(start as int, space_avail as int, N_BLOCK_SIZES - 1, -1);
                }
                None
            },
            Some(chosen_size) => {
                proof {
                    assert(fits(start as int, space_avail as int, chosen_size - MIN_BLOCK));
                    lemma_largest_fit(
                        start as int,
                        space_avail as int,
                        N_BLOCK_SIZES - 1,
                        chosen_size - MIN_BLOCK,
                    );
                }
                let addr = self.start;
                self.start = Paddr::from_raw(start + expt2(chosen_size));
                Some((addr, chosen_size))
            },
        }
    }
}

/// Takes a block of `size` bytes from the free lists and hands out its
/// address; `None` where no block of `size` bytes or more is free.
pub fn alloc_frame(allocator: &mut FrameAllocator, size: u64) -> (r: Option<Paddr>)
    requires
        old(allocator).wf(),
        is_block_size(size as int),
    ensures
        final(allocator).wf(),
        final(allocator)@ == after_alloc(old(allocator)@, size_class(size as int)),
        match r {
            Some(frame) => {
                &&& alloc_addr(old(allocator)@, size_class(size as int)) == Some(frame@)
                &&& frame@ % size == 0
                &&& frame@ + size <= MEM_SIZE
                &&& clear_of(final(allocator)@, frame@ as int, size_class(size as int))
                &&& free_bytes(final(allocator)@) == free_bytes(old(allocator)@) - size
            },
            None => {
                &&& alloc_addr(old(allocator)@, size_class(size as int)) is None
                &&& final(allocator)@ == old(allocator)@
            },
        },
{
    proof {
        lemma_size_class(size_class(size as int));
    }
    if let Some(block) = allocator.alloc_block(size) {
        Some(block.start())
    } else {
        None
    }
}

/// Gives the block of `size` bytes at `frame` back to the free lists,
/// where it joins its buddy if that is free. The block has to be one
/// that was handed out and not given back since: aligned to its size, and
/// sharing no byte with a free block.
pub fn free_frame(allocator: &mut FrameAllocator, frame: Paddr, size: u64)
    requires
        old(allocator).wf(),
        is_block_size(size as int),
        frame@ % size == 0,
        clear_of(old(allocator)@, frame@ as int, size_class(size as int)),
    ensures
        final(allocator).wf(),
        final(allocator)@ == after_free(old(allocator)@, frame@ as int, size_class(size as int)),
        free_bytes(final(allocator)@) == free_bytes(old(allocator)@) + size,
{
    proof {
        lemma_size_class(size_class(size as int));
    }
    allocator.free(frame, size);
}

/// Hands the memory from `start` up to `end` to the allocator: cut into
/// blocks from left to right, each the largest that is aligned where it
/// starts and fits into what is left, and each put on the list of its
/// class as it is. No free block may share a byte with that memory.
pub fn init_frame_allocator(allocator: &mut FrameAllocator, start: Paddr, end: Paddr)
    requires
        old(allocator).wf(),
        range_clear(old(allocator)@, start@ as int, end@ as int),
    ensures
        final(allocator).wf(),
        final(allocator)@ == with_blocks(old(allocator)@, frames(start@ as int, end@ as int)),
        free_bytes(final(allocator)@) == free_bytes(old(allocator)@) + blocks_bytes(
            frames(start@ as int, end@ as int),
        ),
{
    let mut rest = FramesIterator::new(start, end);
    loop
        invariant
            allocator.wf(),
            rest@.1 == end@,
            range_clear(allocator@, rest@.0, rest@.1),
            with_blocks(allocator@, frames(rest@.0, rest@.1)) == with_blocks(
                old(allocator)@,
                frames(start@ as int, end@ as int),
            ),
            free_bytes(allocator@) + blocks_bytes(frames(rest@.0, rest@.1)) == free_bytes(
                old(allocator)@,
            ) + blocks_bytes(frames(start@ as int, end@ as int)),
        ensures
            allocator.wf(),
            allocator@ == with_blocks(old(allocator)@, frames(start@ as int, end@ as int)),
            free_bytes(allocator@) == free_bytes(old(allocator)@) + blocks_bytes(
                frames(start@ as int, end@ as int),
            ),
        decreases rest@.1 - rest@.0,
    {
        let ghost before = rest@;
        match rest.next() {
            None => {
                break;
            },
            Some((addr, log_size)) => {
                proof {
                    lemma_with_blocks_unfold(
                        allocator@,
                        (addr@ as int, log_size - MIN_BLOCK),
                        frames(rest@.0, rest@.1),
                    );
                    lemma_with_block_in_range(
                        allocator@,
                        addr@ as int,
                        log_size - MIN_BLOCK,
                        before.1,
                    );
                    lemma_class_bytes_pos(log_size - MIN_BLOCK);
                }
                allocator.add_block(addr, log_size);
            },
        }
    }
}

impl FrameAllocator {
    /// The addresses of the free blocks of two to the `log_size` bytes,
    /// the head of their list first.
    pub fn free_blocks(&self, log_size: usize) -> (r: Vec<u64>)
        requires
            self.wf(),
            MIN_BLOCK <= log_size <= MAX_BLOCK,
        ensures
            r@ == self@[log_size - MIN_BLOCK],
    {
        let class = log_size_index(log_size);
        let n = self.freelist[class].len();
        let mut r: Vec<u64> = Vec::new();
        let mut i: usize = 0;
        while i < n
            invariant
                class < self.freelist.len(),
                n == self.freelist[class as int]@.len(),
                i <= n,
                r@ == self.freelist[class as int]@.subrange(0, i as int),
            decreases n - i,
        {
            r.push(self.freelist[class][i]);
            proof {
                assert(r@ =~= self.freelist[class as int]@.subrange(0, i + 1));
            }
            i += 1;
        }
        proof {
            assert(r@ =~= self.freelist[class as int]@);
        }
        r
    }

    /// Whether the block of `size` bytes at `frame` can be given back:
    /// `size` is a block size, the block is aligned to it, and it shares
    /// no byte with a free block.
    pub fn can_free(&self, frame: Paddr, size: u64) -> (r: bool)
        requires
            self.wf(),
        ensures
            r == (is_block_size(size as int) && frame@ % size == 0 && clear_of(
                self@,
                frame@ as int,
                size_class(size as int),
            )),
    {
        if !valid_block_size(size) {
            return false;
        }
        let ghost class = size_class(size as int);
        proof {
            lemma_size_class(class);
            lemma_class_bytes_bound(class);
        }
        let addr = frame.raw();
        if addr % size != 0 {
            return false;
        }
        let mut other: usize = 0;
        while other < N_BLOCK_SIZES
            invariant
                self.wf(),
                other <= N_BLOCK_SIZES,
                addr == frame@,
                addr < MEM_SIZE,
                size == class_bytes(class),
                size <= 0x4000_0000,
                forall|c: int, i: int|
                    0 <= c < other && 0 <= i < self@[c].len() ==> apart(
                        addr as int,
                        class,
                        #[trigger] self@[c][i] as int,
                        c,
                    ),
            decreases N_BLOCK_SIZES - other,
        {
            let bytes = expt2(other + MIN_BLOCK);
            let n = self.freelist[other].len();
            let mut i: usize = 0;
            while i < n
                invariant
                    self.wf(),
                    other < N_BLOCK_SIZES,
                    addr == frame@,
                    addr < MEM_SIZE,
                    size == class_bytes(class),
                    size <= 0x4000_0000,
                    bytes == class_bytes(other as int),
                    n == self@[other as int].len(),
                    i <= n,
                    forall|c: int, k: int|
                        0 <= c < other && 0 <= k < self@[c].len() ==> apart(
                            addr as int,
                            class,
                            #[trigger] self@[c][k] as int,
                            c,
                        ),
                    forall|k: int|
                        0 <= k < i ==> apart(
                            addr as int,
                            class,
                            #[trigger] self@[other as int][k] as int,
                            other as int,
                        ),
                decreases n - i,
            {
                let block = self.freelist[other][i];
                proof {
                    assert(block == self@[other as int][i as int]);
                    assert(block_ok(block as int, other as int));
                    lemma_class_bytes_bound(other as int);
                }
                if !(addr + size <= block || block + bytes <= addr) {
                    proof {
                        assert(has_block(self@, other as int, i as int));
                        assert(!apart(
                            addr as int,
                            class,
                            self@[other as int][i as int] as int,
                            other as int,
                        ));
                    }
                    return false;
                }
                i += 1;
            }
            other += 1;
        }
        true
    }

    /// The bytes of all free blocks.
    pub fn free_bytes(&self) -> (r: u128)
        requires
            self.wf(),
        ensures
            r == free_bytes(self@),
    {
        let mut total: u128 = 0;
        let mut class: usize = 0;
        while class < N_BLOCK_SIZES
            invariant
                self.wf(),
                class <= N_BLOCK_SIZES,
                total == free_bytes_below(self@, class as int),
                total <= class * 0x4000_0000_0000_0000_0000_0000,
            decreases N_BLOCK_SIZES - class,
        {
            let bytes = expt2(class + MIN_BLOCK) as u128;
            let n = self.freelist[class].len() as u128;
            proof {
                lemma_class_bytes_bound(class as int);
                assert(n * bytes <= 0x4000_0000_0000_0000_0000_0000) by (nonlinear_arith)
                    requires
                        0 <= n <= 0xffff_ffff_ffff_ffff,
                        0 <= bytes <= 0x4000_0000,
                ;
            }
            total = total + n * bytes;
            class += 1;
        }
        total
    }
}

} // verus!
