//! How a range of memory is cut into blocks: from left to right, each
//! time the largest block that is aligned where it starts and fits into
//! what is left.

use vstd::prelude::*;
use vstd::arithmetic::power2::pow2;
use crate::memory::framealloc::classes::{
    MIN_BLOCK, MAX_BLOCK, N_BLOCK_SIZES, is_class, class_bytes, aligned_to, is_log2,
    lemma_class_bytes_pos, lemma_divisible_below,
};
use crate::memory::framealloc::model::{has_block, clear_of, with_block};

verus! {

/// Whether a block of `class` can start at `addr` and end within `len`
/// bytes from there.
pub open spec fn fits(addr: int, len: int, class: int) -> bool {
    is_class(class) && aligned_to(addr, class) && class_bytes(class) <= len
}

/// The largest class up to `class` of which a block fits at `addr` into
/// `len` bytes, or -1 if there is none.
pub open spec fn largest_fit_upto(addr: int, len: int, class: int) -> int
    decreases class + 1,
{
    if class < 0 {
        -1
    } else if fits(addr, len, class) {
        class
    } else {
        largest_fit_upto(addr, len, class - 1)
    }
}

/// The largest fit up to `class` fits, and no class above it up to
/// `class` does.
pub proof fn lemma_largest_fit_upto(addr: int, len: int, class: int)
    requires
        class < N_BLOCK_SIZES,
    ensures
        -1 <= largest_fit_upto(addr, len, class) <= class || class < -1,
        largest_fit_upto(addr, len, class) >= 0 ==> fits(
            addr,
            len,
            largest_fit_upto(addr, len, class),
        ),
        forall|c: int| largest_fit_upto(addr, len, class) < c <= class ==> !fits(addr, len, c),
    decreases class + 1,
{
    if class >= 0 && !fits(addr, len, class) {
        lemma_largest_fit_upto(addr, len, class - 1);
    }
}

/// The largest class of which a block fits at `addr` into `len` bytes, or
/// -1 if there is none.
pub open spec fn largest_fit(addr: int, len: int) -> int {
    largest_fit_upto(addr, len, N_BLOCK_SIZES - 1)
}

/// The blocks that the range from `start` up to `end` is cut into, each
/// with its address and the ordinal of its class, from left to right.
pub open spec fn frames(start: int, end: int) -> Seq<(int, int)>
    decreases end - start,
{
    let class = largest_fit(start, end - start);
    if start < end && class >= 0 {
        proof {
            lemma_class_bytes_pos(class);
            lemma_largest_fit_upto(start, end - start, N_BLOCK_SIZES - 1);
        }
        seq![(start, class)] + frames(start + class_bytes(class), end)
    } else {
        Seq::empty()
    }
}

/// The bytes of the given blocks.
pub open spec fn blocks_bytes(blocks: Seq<(int, int)>) -> int
    decreases blocks.len(),
{
    if blocks.len() == 0 {
        0
    } else {
        class_bytes(blocks[0].1) + blocks_bytes(blocks.drop_first())
    }
}

/// The lists after the given blocks were put on them one by one, as they
/// are.
pub open spec fn with_blocks(lists: Seq<Seq<u64>>, blocks: Seq<(int, int)>) -> Seq<Seq<u64>>
    decreases blocks.len(),
{
    if blocks.len() == 0 {
        lists
    } else {
        with_blocks(with_block(lists, blocks[0].0, blocks[0].1), blocks.drop_first())
    }
}

/// Whether no free block shares a byte with the range from `lo` up to
/// `hi`.
pub open spec fn range_clear(lists: Seq<Seq<u64>>, lo: int, hi: int) -> bool {
    forall|class: int, i: int|
        has_block(lists, class, i) ==> (#[trigger] lists[class][i]) + class_bytes(class) <= lo || hi
            <= lists[class][i]
}

/// Whether a block of two to the `log_size` bytes is of a size class, as
/// aligned as `alignment` allows, and not larger than `remaining`.
pub open spec fn class_allowed(alignment: int, remaining: int, log_size: int) -> bool {
    &&& MIN_BLOCK <= log_size <= MAX_BLOCK
    &&& log_size <= alignment
    &&& pow2(log_size as nat) <= remaining
}

/// A number is a multiple of just those powers of two that do not exceed
/// the number of times that two divides it.
pub proof fn lemma_aligned_iff(x: int, log: int, k: int)
    requires
        0 <= x,
        is_log2(x, log),
        0 <= k < 64,
    ensures
        x % (pow2(k as nat) as int) == 0 <==> k <= log,
{
    if x != 0 {
        if k <= log {
            lemma_divisible_below(x, log as nat, k as nat);
        } else if x % (pow2(k as nat) as int) == 0 {
            lemma_divisible_below(x, k as nat, log as nat);
        }
    } else {
        vstd::arithmetic::power2::lemma_pow2_pos(k as nat);
    }
}

/// The largest fit is the class that fits while no class above it does.
pub proof fn lemma_largest_fit(addr: int, len: int, class: int, best: int)
    requires
        -1 <= best <= class < N_BLOCK_SIZES,
        best >= 0 ==> fits(addr, len, best),
        forall|c: int| best < c <= class ==> !fits(addr, len, c),
    ensures
        largest_fit_upto(addr, len, class) == best,
    decreases class - best,
{
    if best < class {
        lemma_largest_fit(addr, len, class - 1, best);
    }
}

/// Putting the first of some blocks on the lists and then the others is
/// putting all of them.
pub proof fn lemma_with_blocks_unfold(lists: Seq<Seq<u64>>, first: (int, int), others: Seq<(int, int)>)
    ensures
        with_blocks(lists, seq![first] + others) == with_blocks(
            with_block(lists, first.0, first.1),
            others,
        ),
        blocks_bytes(seq![first] + others) == class_bytes(first.1) + blocks_bytes(others),
{
    assert((seq![first] + others).drop_first() =~= others);
}

/// A block that starts a range which no free block shares a byte with
/// can join the lists, and no free block shares a byte with the rest of
/// the range then.
pub proof fn lemma_with_block_in_range(lists: Seq<Seq<u64>>, addr: int, class: int, end: int)
    requires
        lists.len() == N_BLOCK_SIZES,
        0 <= addr,
        is_class(class),
        range_clear(lists, addr, end),
        addr + class_bytes(class) <= end,
    ensures
        clear_of(lists, addr, class),
        range_clear(with_block(lists, addr, class), addr + class_bytes(class), end),
{
    let after = with_block(lists, addr, class);
    lemma_class_bytes_pos(class);
    assert forall|c: int, i: int| has_block(after, c, i) implies (#[trigger] after[c][i])
        + class_bytes(c) <= addr + class_bytes(class) || end <= after[c][i] by {
        if c == class && i > 0 {
            assert(after[c][i] == lists[c][i - 1]);
        } else if c != class {
            assert(after[c][i] == lists[c][i]);
        }
    }
}

} // verus!
