//! Laws of the allocator: what holds of its operations together.

use vstd::prelude::*;
use crate::memory::MEM_SIZE;
use crate::memory::framealloc::classes::{
    N_BLOCK_SIZES, is_class, class_bytes, aligned_to, buddy_of, lemma_class_bytes_pos,
    lemma_halves, lemma_buddy_pair, lemma_class_bytes_pages,
};
use crate::memory::framealloc::model::{
    block_ok, apart, lists_wf, clear_of, free_bytes, with_block, after_free, merged_addr,
    alloc_addr, after_alloc, first_free_class, lemma_after_alloc, lemma_after_free,
    lemma_with_block,
};
use crate::memory::framealloc::seeding::{
    fits, largest_fit, frames, blocks_bytes, with_blocks, range_clear, lemma_largest_fit_upto,
    lemma_largest_fit, lemma_with_block_in_range,
};

verus! {

/// The buddy of the buddy of an aligned block is the block itself.
pub proof fn lemma_buddy_symmetry(addr: int, class: int)
    requires
        0 <= class,
        0 <= addr,
        aligned_to(addr, class),
    ensures
        buddy_of(buddy_of(addr, class), class) == addr,
{
    lemma_buddy_pair(addr, class);
}

/// The two halves of a block are each other's buddy, and the block that
/// either makes up with its buddy is the block that was halved.
pub proof fn lemma_split_then_merge(addr: int, class: int)
    requires
        1 <= class,
        0 <= addr,
        aligned_to(addr, class),
    ensures
        buddy_of(addr, class - 1) == addr + class_bytes(class - 1),
        buddy_of(addr + class_bytes(class - 1), class - 1) == addr,
        merged_addr(addr, class - 1) == addr,
        merged_addr(addr + class_bytes(class - 1), class - 1) == addr,
{
    lemma_halves(addr, class - 1);
    lemma_class_bytes_pos(class - 1);
}

/// Giving a block back to lists that hold nothing of it, but hold its
/// buddy first, takes the buddy from the list and goes on with the block
/// that the two make up.
proof fn lemma_free_second_half(lists: Seq<Seq<u64>>, first: int, second: int, class: int)
    requires
        lists.len() == N_BLOCK_SIZES,
        0 <= class < N_BLOCK_SIZES - 1,
        0 <= first < MEM_SIZE,
        buddy_of(second, class) == first,
    ensures
        after_free(with_block(lists, first, class), second, class) == after_free(
            lists,
            merged_addr(second, class),
            class + 1,
        ),
{
    let pushed = with_block(lists, first, class);
    let list = pushed[class];
    assert(list[0] == first as u64);
    list.index_of_first_ensures(first as u64);
    assert(list.remove(0) =~= lists[class]);
    assert(pushed.update(class, list.remove_value(first as u64)) =~= lists);
}

/// Giving back the two halves of a block, in either order, is giving
/// back the block: the half that comes second finds the first as its free
/// buddy, and the two go on as the block that was halved. Where that
/// block is of the largest class, or its own buddy is not free, it ends
/// as the head of the list of its class, and the list of the halves is
/// as it was.
pub proof fn lemma_free_halves(lists: Seq<Seq<u64>>, addr: int, class: int)
    requires
        lists_wf(lists),
        1 <= class,
        block_ok(addr, class),
        clear_of(lists, addr, class),
    ensures
        after_free(
            after_free(lists, addr, class - 1),
            addr + class_bytes(class - 1),
            class - 1,
        ) == after_free(lists, addr, class),
        after_free(
            after_free(lists, addr + class_bytes(class - 1), class - 1),
            addr,
            class - 1,
        ) == after_free(lists, addr, class),
        class == N_BLOCK_SIZES - 1 || !lists[class].contains(buddy_of(addr, class) as u64)
            ==> after_free(lists, addr, class) == with_block(lists, addr, class),
{
    let half = class_bytes(class - 1);
    let upper = addr + half;
    let list = lists[class - 1];
    lemma_halves(addr, class - 1);
    lemma_class_bytes_pos(class - 1);
    assert forall|i: int| 0 <= i < list.len() implies list[i] != addr as u64 && list[i]
        != upper as u64 by {
        assert(apart(addr, class, lists[class - 1][i] as int, class - 1));
    }
    assert(!list.contains(addr as u64));
    assert(!list.contains(upper as u64));
    lemma_free_second_half(lists, addr, upper, class - 1);
    lemma_free_second_half(lists, upper, addr, class - 1);
}

/// Whether `x` is a byte of the `i`-th of the given blocks.
pub open spec fn in_block(blocks: Seq<(int, int)>, i: int, x: int) -> bool {
    0 <= i < blocks.len() && blocks[i].0 <= x < blocks[i].0 + class_bytes(blocks[i].1)
}

/// Whether `x` is a byte of one of the given blocks.
pub open spec fn in_blocks(blocks: Seq<(int, int)>, x: int) -> bool {
    exists|i: int| #[trigger] in_block(blocks, i, x)
}

/// The blocks that a range is cut into lie in the range, one after the
/// other from where it starts, without a gap and without a byte in
/// common; each is of a size class and aligned to its own size. Where the
/// range starts and ends on a page, they go up to its end, so that each
/// byte of the range is in one of them.
pub proof fn lemma_frames_tile(start: int, end: int)
    requires
        0 <= start,
    ensures
        ({
            let blocks = frames(start, end);
            &&& forall|i: int|
                0 <= i < blocks.len() ==> {
                    &&& is_class((#[trigger] blocks[i]).1)
                    &&& aligned_to(blocks[i].0, blocks[i].1)
                    &&& start <= blocks[i].0
                    &&& blocks[i].0 + class_bytes(blocks[i].1) <= end
                }
            &&& forall|i: int, j: int|
                0 <= i < j < blocks.len() ==> (#[trigger] blocks[i]).0 + class_bytes(blocks[i].1)
                    <= (#[trigger] blocks[j]).0
            &&& blocks.len() > 0 ==> blocks[0].0 == start
            &&& forall|i: int|
                0 <= i < blocks.len() - 1 ==> blocks[i + 1].0 == (#[trigger] blocks[i]).0
                    + class_bytes(blocks[i].1)
            &&& start <= end ==> start + blocks_bytes(blocks) <= end
            &&& start <= end && start % 4096 == 0 && end % 4096 == 0 ==> {
                &&& start + blocks_bytes(blocks) == end
                &&& forall|x: int| start <= x < end ==> #[trigger] in_blocks(blocks, x)
            }
        }),
    decreases end - start,
{
    let blocks = frames(start, end);
    let class = largest_fit(start, end - start);
    lemma_largest_fit_upto(start, end - start, N_BLOCK_SIZES - 1);
    if start < end && start % 4096 == 0 && end % 4096 == 0 {
        lemma_class_bytes_pages(0);
        assert(fits(start, end - start, 0));
    }
    if start < end && class >= 0 {
        let size = class_bytes(class);
        let others = frames(start + size, end);
        lemma_class_bytes_pos(class);
        lemma_class_bytes_pages(class);
        lemma_frames_tile(start + size, end);
        assert(blocks.drop_first() =~= others);
        assert forall|i: int| 0 <= i < blocks.len() implies {
            &&& is_class((#[trigger] blocks[i]).1)
            &&& aligned_to(blocks[i].0, blocks[i].1)
            &&& start <= blocks[i].0
            &&& blocks[i].0 + class_bytes(blocks[i].1) <= end
        } by {
            if i > 0 {
                assert(blocks[i] == others[i - 1]);
            }
        }
        assert forall|i: int, j: int| 0 <= i < j < blocks.len() implies (#[trigger] blocks[i]).0
            + class_bytes(blocks[i].1) <= (#[trigger] blocks[j]).0 by {
            assert(blocks[j] == others[j - 1]);
            if i > 0 {
                assert(blocks[i] == others[i - 1]);
            }
        }
        assert forall|i: int| 0 <= i < blocks.len() - 1 implies blocks[i + 1].0 == (
        #[trigger] blocks[i]).0 + class_bytes(blocks[i].1) by {
            assert(blocks[i + 1] == others[i]);
            if i > 0 {
                assert(blocks[i] == others[i - 1]);
            }
        }
        if start % 4096 == 0 && end % 4096 == 0 {
            assert forall|x: int| start <= x < end implies #[trigger] in_blocks(blocks, x) by {
                if x < start + size {
                    assert(in_block(blocks, 0, x));
                } else {
                    assert(in_blocks(others, x));
                    let i = choose|i: int| #[trigger] in_block(others, i, x);
                    assert(blocks[i + 1] == others[i]);
                    assert(in_block(blocks, i + 1, x));
                }
            }
        }
    }
}

/// A range that is one block of the largest class is cut into that block
/// alone. After it came to lists that held nothing, one request for a
/// block of that class is answered with it and leaves nothing, so that
/// the next one finds none.
pub proof fn lemma_single_block_exhausts(start: int)
    requires
        block_ok(start, N_BLOCK_SIZES - 1),
    ensures
        ({
            let largest = N_BLOCK_SIZES - 1;
            let empty = Seq::new(N_BLOCK_SIZES as nat, |class: int| Seq::<u64>::empty());
            let seeded = with_blocks(empty, frames(start, start + class_bytes(largest)));
            &&& frames(start, start + class_bytes(largest)) == seq![(start, largest)]
            &&& seeded == with_block(empty, start, largest)
            &&& alloc_addr(seeded, largest) == Some(start as u64)
            &&& after_alloc(seeded, largest) == empty
            &&& alloc_addr(empty, largest) is None
        }),
{
    let largest = N_BLOCK_SIZES - 1;
    let size = class_bytes(largest);
    let empty = Seq::new(N_BLOCK_SIZES as nat, |class: int| Seq::<u64>::empty());
    let seeded = with_block(empty, start, largest);
    lemma_class_bytes_pos(largest);
    assert(fits(start, size, largest));
    lemma_largest_fit(start, size, largest, largest);
    assert(frames(start + size, start + size) =~= Seq::<(int, int)>::empty());
    assert(frames(start, start + size) =~= seq![(start, largest)]);
    assert(seq![(start, largest)].drop_first() =~= Seq::<(int, int)>::empty());
    assert(with_blocks(seeded, Seq::<(int, int)>::empty()) == seeded);
    assert(with_blocks(empty, seq![(start, largest)]) == seeded);
    assert(seeded[largest][0] == start as u64);
    assert(first_free_class(seeded, largest) == largest);
    assert(after_alloc(seeded, largest) =~~= empty);
    assert(first_free_class(empty, largest) == N_BLOCK_SIZES) by {
        assert(first_free_class(empty, largest + 1) == N_BLOCK_SIZES);
    }
}

/// Seeding keeps the lists as they should be and adds the bytes of the
/// blocks that the range is cut into to the free bytes: all bytes of the
/// range, where it starts and ends on a page.
pub proof fn lemma_seeded_bytes(lists: Seq<Seq<u64>>, start: int, end: int)
    requires
        lists_wf(lists),
        0 <= start,
        end <= MEM_SIZE,
        range_clear(lists, start, end),
    ensures
        lists_wf(with_blocks(lists, frames(start, end))),
        free_bytes(with_blocks(lists, frames(start, end))) == free_bytes(lists) + blocks_bytes(
            frames(start, end),
        ),
        start <= end && start % 4096 == 0 && end % 4096 == 0 ==> free_bytes(
            with_blocks(lists, frames(start, end)),
        ) == free_bytes(lists) + (end - start),
    decreases end - start,
{
    let class = largest_fit(start, end - start);
    lemma_frames_tile(start, end);
    lemma_largest_fit_upto(start, end - start, N_BLOCK_SIZES - 1);
    if start < end && class >= 0 {
        let size = class_bytes(class);
        let others = frames(start + size, end);
        lemma_class_bytes_pos(class);
        lemma_with_block_in_range(lists, start, class, end);
        lemma_with_block(lists, start, class);
        lemma_seeded_bytes(with_block(lists, start, class), start + size, end);
        assert((seq![(start, class)] + others).drop_first() =~= others);
    }
}

/// A request for a block or the return of one.
pub enum FrameOp {
    /// A request for a block of the class.
    Alloc { class: int },
    /// The return of the block of the class at the address.
    Free { addr: int, class: int },
}

/// The free lists, and the bytes of the blocks that are in use.
pub struct FrameState {
    pub lists: Seq<Seq<u64>>,
    pub in_use: int,
}

/// Whether the operation may be applied: a request names a class, a
/// return names a block that may stand where it does and that shares no
/// byte with a free block.
pub open spec fn op_ok(state: FrameState, op: FrameOp) -> bool {
    match op {
        FrameOp::Alloc { class } => is_class(class),
        FrameOp::Free { addr, class } => block_ok(addr, class) && clear_of(state.lists, addr, class),
    }
}

/// The state after the operation.
pub open spec fn after_op(state: FrameState, op: FrameOp) -> FrameState {
    match op {
        FrameOp::Alloc { class } => FrameState {
            lists: after_alloc(state.lists, class),
            in_use: if alloc_addr(state.lists, class) is Some {
                state.in_use + class_bytes(class)
            } else {
                state.in_use
            },
        },
        FrameOp::Free { addr, class } => FrameState {
            lists: after_free(state.lists, addr, class),
            in_use: state.in_use - class_bytes(class),
        },
    }
}

/// Whether the operations may be applied one after the other.
pub open spec fn ops_ok(state: FrameState, ops: Seq<FrameOp>) -> bool
    decreases ops.len(),
{
    ops.len() > 0 ==> op_ok(state, ops[0]) && ops_ok(after_op(state, ops[0]), ops.drop_first())
}

/// The state after the operations, applied one after the other.
pub open spec fn after_ops(state: FrameState, ops: Seq<FrameOp>) -> FrameState
    decreases ops.len(),
{
    if ops.len() == 0 {
        state
    } else {
        after_ops(after_op(state, ops[0]), ops.drop_first())
    }
}

/// Whatever is requested and returned, the free bytes and the bytes in
/// use add up to what they added up to before, and the lists stay as
/// they should be.
pub proof fn lemma_bytes_conserved(state: FrameState, ops: Seq<FrameOp>)
    requires
        lists_wf(state.lists),
        ops_ok(state, ops),
    ensures
        lists_wf(after_ops(state, ops).lists),
        free_bytes(after_ops(state, ops).lists) + after_ops(state, ops).in_use == free_bytes(
            state.lists,
        ) + state.in_use,
    decreases ops.len(),
{
    if ops.len() > 0 {
        match ops[0] {
            FrameOp::Alloc { class } => {
                lemma_after_alloc(state.lists, class);
            },
            FrameOp::Free { addr, class } => {
                lemma_after_free(state.lists, addr, class);
            },
        }
        lemma_bytes_conserved(after_op(state, ops[0]), ops.drop_first());
    }
}

} // verus!
