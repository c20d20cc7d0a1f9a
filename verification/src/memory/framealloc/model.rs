//! The free lists as plain sequences: what allocating and freeing do to
//! them, and what they keep true of them.

use vstd::prelude::*;
use crate::memory::MEM_SIZE;
use crate::memory::framealloc::classes::{
    N_BLOCK_SIZES, is_class, class_bytes, aligned_to, buddy_of, lemma_class_bytes_pos,
    lemma_halves, lemma_buddy_pair,
};

verus! {

/// Whether a block of `class` may stand at `addr`: aligned to its own
/// size, and within installed memory.
pub open spec fn block_ok(addr: int, class: int) -> bool {
    &&& is_class(class)
    &&& 0 <= addr
    &&& aligned_to(addr, class)
    &&& addr + class_bytes(class) <= MEM_SIZE
}

/// Whether two blocks share no byte.
pub open spec fn apart(addr1: int, class1: int, addr2: int, class2: int) -> bool {
    addr1 + class_bytes(class1) <= addr2 || addr2 + class_bytes(class2) <= addr1
}

/// Whether `lists[class][i]` is a block of the lists.
pub open spec fn has_block(lists: Seq<Seq<u64>>, class: int, i: int) -> bool {
    0 <= class < lists.len() && 0 <= i < lists[class].len()
}

/// What holds of the free lists at all times: there is one list per
/// class, each block in the list of a class may stand where it does, and
/// no two blocks share a byte.
pub open spec fn lists_wf(lists: Seq<Seq<u64>>) -> bool {
    &&& lists.len() == N_BLOCK_SIZES
    &&& forall|class: int, i: int|
        has_block(lists, class, i) ==> block_ok(#[trigger] lists[class][i] as int, class)
    &&& forall|class1: int, i1: int, class2: int, i2: int|
        has_block(lists, class1, i1) && has_block(lists, class2, i2) && (class1 != class2 || i1
            != i2) ==> apart(
            #[trigger] lists[class1][i1] as int,
            class1,
            #[trigger] lists[class2][i2] as int,
            class2,
        )
}

/// Whether the block of `class` at `addr` shares no byte with a free
/// block.
pub open spec fn clear_of(lists: Seq<Seq<u64>>, addr: int, class: int) -> bool {
    forall|other: int, i: int|
        has_block(lists, other, i) ==> apart(addr, class, #[trigger] lists[other][i] as int, other)
}

/// The bytes of the free blocks of the classes below `class`.
pub open spec fn free_bytes_below(lists: Seq<Seq<u64>>, class: int) -> int
    decreases class,
{
    if class <= 0 {
        0
    } else {
        free_bytes_below(lists, class - 1) + lists[class - 1].len() * class_bytes(class - 1)
    }
}

/// The bytes of all free blocks.
pub open spec fn free_bytes(lists: Seq<Seq<u64>>) -> int {
    free_bytes_below(lists, N_BLOCK_SIZES as int)
}

/// The lists with the block at `addr` put at the head of the list of
/// `class`.
pub open spec fn with_block(lists: Seq<Seq<u64>>, addr: int, class: int) -> Seq<Seq<u64>> {
    lists.update(class, seq![addr as u64] + lists[class])
}

/// The lists without the `i`-th block of `class`.
pub open spec fn without_block(lists: Seq<Seq<u64>>, class: int, i: int) -> Seq<Seq<u64>> {
    lists.update(class, lists[class].remove(i))
}

/// The lowest class from `class` on whose list holds a block, or the
/// number of classes if there is none.
pub open spec fn first_free_class(lists: Seq<Seq<u64>>, class: int) -> int
    decreases N_BLOCK_SIZES - class,
{
    if !is_class(class) {
        N_BLOCK_SIZES as int
    } else if lists[class].len() > 0 {
        class
    } else {
        first_free_class(lists, class + 1)
    }
}

/// The address that a request for a block of `class` is answered with:
/// the head of the list of the lowest class from `class` on that has a
/// block.
pub open spec fn alloc_addr(lists: Seq<Seq<u64>>, class: int) -> Option<u64> {
    let found = first_free_class(lists, class);
    if is_class(found) {
        Some(lists[found][0])
    } else {
        None
    }
}

/// The lists after a request for a block of `class`. The block found
/// leaves its list. It is halved down to `class`: the lower half is halved
/// again, the upper half goes to the list of its class.
pub open spec fn after_alloc(lists: Seq<Seq<u64>>, class: int) -> Seq<Seq<u64>> {
    let found = first_free_class(lists, class);
    if is_class(found) {
        Seq::new(
            lists.len(),
            |c: int|
                if c == found {
                    lists[c].drop_first()
                } else if class <= c < found {
                    seq![(lists[found][0] + class_bytes(c)) as u64] + lists[c]
                } else {
                    lists[c]
                },
        )
    } else {
        lists
    }
}

/// The lists after the block of `class` at `addr` is given back. As long
/// as the buddy of the block is free, and the block is not of the largest
/// class, the buddy leaves its list and the two go on as one block of the
/// next class, which starts at the lower of the two. The block that is
/// left becomes the head of the list of its class.
pub open spec fn after_free(lists: Seq<Seq<u64>>, addr: int, class: int) -> Seq<Seq<u64>>
    decreases N_BLOCK_SIZES - class,
{
    let buddy = buddy_of(addr, class);
    if 0 <= class < N_BLOCK_SIZES - 1 && lists[class].contains(buddy as u64) {
        after_free(
            lists.update(class, lists[class].remove_value(buddy as u64)),
            merged_addr(addr, class),
            class + 1,
        )
    } else {
        with_block(lists, addr, class)
    }
}

/// Changing one list changes the free bytes by what that list gained.
pub proof fn lemma_free_bytes_update(lists: Seq<Seq<u64>>, class: int, list: Seq<u64>, upto: int)
    requires
        0 <= class < lists.len(),
        0 <= upto <= lists.len(),
    ensures
        free_bytes_below(lists.update(class, list), upto) == free_bytes_below(lists, upto) + (if class
            < upto {
            (list.len() - lists[class].len()) * class_bytes(class)
        } else {
            0
        }),
    decreases upto,
{
    if upto > 0 {
        lemma_free_bytes_update(lists, class, list, upto - 1);
        if class == upto - 1 {
            let a = list.len() as int;
            let b = lists[class].len() as int;
            let s = class_bytes(class);
            assert(a * s == b * s + (a - b) * s) by (nonlinear_arith);
        }
    }
}

/// A block that may stand where it does and shares no byte with a free
/// block can join the lists.
pub proof fn lemma_with_block(lists: Seq<Seq<u64>>, addr: int, class: int)
    requires
        lists_wf(lists),
        block_ok(addr, class),
        clear_of(lists, addr, class),
    ensures
        lists_wf(with_block(lists, addr, class)),
        free_bytes(with_block(lists, addr, class)) == free_bytes(lists) + class_bytes(class),
{
    let after = with_block(lists, addr, class);
    lemma_class_bytes_pos(class);
    assert forall|c: int, i: int| has_block(after, c, i) implies block_ok(
        #[trigger] after[c][i] as int,
        c,
    ) by {
        if c == class && i > 0 {
            assert(after[c][i] == lists[c][i - 1]);
        }
    }
    assert forall|c1: int, i1: int, c2: int, i2: int|
        has_block(after, c1, i1) && has_block(after, c2, i2) && (c1 != c2 || i1 != i2) implies apart(
        #[trigger] after[c1][i1] as int,
        c1,
        #[trigger] after[c2][i2] as int,
        c2,
    ) by {
        let j1 = if c1 == class {
            i1 - 1
        } else {
            i1
        };
        let j2 = if c2 == class {
            i2 - 1
        } else {
            i2
        };
        if j1 >= 0 {
            assert(after[c1][i1] == lists[c1][j1]);
        }
        if j2 >= 0 {
            assert(after[c2][i2] == lists[c2][j2]);
        }
    }
    lemma_free_bytes_update(lists, class, seq![addr as u64] + lists[class], N_BLOCK_SIZES as int);
    let n = lists[class].len() as int;
    let s = class_bytes(class);
    assert((n + 1 - n) * s == s) by (nonlinear_arith);
}

/// A block can leave the lists, and then shares no byte with a free
/// block.
pub proof fn lemma_without_block(lists: Seq<Seq<u64>>, class: int, i: int)
    requires
        lists_wf(lists),
        has_block(lists, class, i),
    ensures
        lists_wf(without_block(lists, class, i)),
        clear_of(without_block(lists, class, i), lists[class][i] as int, class),
        free_bytes(without_block(lists, class, i)) == free_bytes(lists) - class_bytes(class),
{
    let after = without_block(lists, class, i);
    assert forall|c: int, j: int| has_block(after, c, j) implies block_ok(
        #[trigger] after[c][j] as int,
        c,
    ) && apart(lists[class][i] as int, class, after[c][j] as int, c) by {
        let k = if c == class && j >= i {
            j + 1
        } else {
            j
        };
        assert(after[c][j] == lists[c][k]);
    }
    assert forall|c1: int, i1: int, c2: int, i2: int|
        has_block(after, c1, i1) && has_block(after, c2, i2) && (c1 != c2 || i1 != i2) implies apart(
        #[trigger] after[c1][i1] as int,
        c1,
        #[trigger] after[c2][i2] as int,
        c2,
    ) by {
        let j1 = if c1 == class && i1 >= i {
            i1 + 1
        } else {
            i1
        };
        let j2 = if c2 == class && i2 >= i {
            i2 + 1
        } else {
            i2
        };
        assert(after[c1][i1] == lists[c1][j1]);
        assert(after[c2][i2] == lists[c2][j2]);
    }
    lemma_free_bytes_update(lists, class, lists[class].remove(i), N_BLOCK_SIZES as int);
    let n = lists[class].len() as int;
    let s = class_bytes(class);
    assert((n - 1 - n) * s == -s) by (nonlinear_arith);
}

/// Where the search for a free block from `class` upwards ends.
pub proof fn lemma_first_free_class(lists: Seq<Seq<u64>>, class: int)
    requires
        lists.len() == N_BLOCK_SIZES,
        0 <= class <= N_BLOCK_SIZES,
    ensures
        class <= first_free_class(lists, class) <= N_BLOCK_SIZES,
        is_class(first_free_class(lists, class)) ==> lists[first_free_class(lists, class)].len()
            > 0,
        forall|c: int| class <= c < first_free_class(lists, class) ==> (#[trigger] lists[c]).len() == 0,
    decreases N_BLOCK_SIZES - class,
{
    if is_class(class) && lists[class].len() == 0 {
        lemma_first_free_class(lists, class + 1);
    }
}

/// A request that finds a block in the list of its own class takes the
/// head of that list.
pub proof fn lemma_alloc_head(lists: Seq<Seq<u64>>, class: int)
    requires
        lists.len() == N_BLOCK_SIZES,
        is_class(class),
        lists[class].len() > 0,
    ensures
        alloc_addr(lists, class) == Some(lists[class][0]),
        after_alloc(lists, class) == without_block(lists, class, 0),
{
    assert(lists[class].drop_first() =~= lists[class].remove(0));
    assert(after_alloc(lists, class) =~= without_block(lists, class, 0));
}

/// A request that finds the list of its class empty is answered with the
/// lower half of the block that a request of the next class is answered
/// with; the upper half goes to the list of its class.
pub proof fn lemma_alloc_step(lists: Seq<Seq<u64>>, class: int)
    requires
        lists.len() == N_BLOCK_SIZES,
        is_class(class),
        lists[class].len() == 0,
    ensures
        alloc_addr(lists, class) == alloc_addr(lists, class + 1),
        alloc_addr(lists, class) matches Some(addr) ==> after_alloc(lists, class) == with_block(
            after_alloc(lists, class + 1),
            addr + class_bytes(class),
            class,
        ),
        alloc_addr(lists, class) is None ==> after_alloc(lists, class) == lists,
{
    lemma_first_free_class(lists, class + 1);
    if let Some(addr) = alloc_addr(lists, class) {
        assert(after_alloc(lists, class) =~= with_block(
            after_alloc(lists, class + 1),
            addr + class_bytes(class),
            class,
        ));
    }
}

/// What a request for a block takes from the lists, and what it leaves.
pub proof fn lemma_after_alloc(lists: Seq<Seq<u64>>, class: int)
    requires
        lists_wf(lists),
        is_class(class),
    ensures
        alloc_addr(lists, class) is Some <==> is_class(first_free_class(lists, class)),
        alloc_addr(lists, class) is None ==> after_alloc(lists, class) == lists,
        alloc_addr(lists, class) matches Some(addr) ==> {
            &&& lists_wf(after_alloc(lists, class))
            &&& block_ok(addr as int, class)
            &&& clear_of(after_alloc(lists, class), addr as int, class)
            &&& free_bytes(after_alloc(lists, class)) == free_bytes(lists) - class_bytes(class)
        },
    decreases N_BLOCK_SIZES - class,
{
    if lists[class].len() > 0 {
        lemma_alloc_head(lists, class);
        lemma_without_block(lists, class, 0);
    } else {
        lemma_alloc_step(lists, class);
        if class + 1 < N_BLOCK_SIZES {
            lemma_after_alloc(lists, class + 1);
        }
        if let Some(a) = alloc_addr(lists, class) {
            let addr = a as int;
            let above = after_alloc(lists, class + 1);
            let upper = addr + class_bytes(class);
            lemma_class_bytes_pos(class);
            lemma_halves(addr, class);
            assert(clear_of(above, upper, class));
            lemma_with_block(above, upper, class);
            let after = with_block(above, upper, class);
            assert forall|c: int, i: int| has_block(after, c, i) implies apart(
                addr,
                class,
                #[trigger] after[c][i] as int,
                c,
            ) by {
                if c == class && i > 0 {
                    assert(after[c][i] == above[c][i - 1]);
                } else if c != class {
                    assert(after[c][i] == above[c][i]);
                }
            }
        }
    }
}

/// The lower of a block and its buddy: where the block that the two make
/// up starts.
pub open spec fn merged_addr(addr: int, class: int) -> int {
    if addr <= buddy_of(addr, class) {
        addr
    } else {
        buddy_of(addr, class)
    }
}

/// Where the buddy of a block that is given back is free, the buddy can
/// leave the lists, and the block that the two make up can be given back
/// in their place.
pub proof fn lemma_free_step(lists: Seq<Seq<u64>>, addr: int, class: int)
    requires
        lists_wf(lists),
        block_ok(addr, class),
        clear_of(lists, addr, class),
        class < N_BLOCK_SIZES - 1,
        lists[class].contains(buddy_of(addr, class) as u64),
    ensures
        ({
            let rest = lists.update(class, lists[class].remove_value(buddy_of(addr, class) as u64));
            &&& lists_wf(rest)
            &&& block_ok(merged_addr(addr, class), class + 1)
            &&& clear_of(rest, merged_addr(addr, class), class + 1)
            &&& free_bytes(rest) == free_bytes(lists) - class_bytes(class)
            &&& after_free(lists, addr, class) == after_free(
                rest,
                merged_addr(addr, class),
                class + 1,
            )
        }),
{
    let buddy = buddy_of(addr, class);
    let list = lists[class];
    list.index_of_first_ensures(buddy as u64);
    let i = list.index_of_first(buddy as u64).unwrap();
    let rest = without_block(lists, class, i);
    let lower = merged_addr(addr, class);
    lemma_without_block(lists, class, i);
    lemma_buddy_pair(addr, class);
    lemma_class_bytes_pos(class);
    assert(block_ok(lists[class][i] as int, class));
    assert(block_ok(lower, class + 1));
    assert forall|c: int, j: int| has_block(rest, c, j) implies apart(
        lower,
        class + 1,
        #[trigger] rest[c][j] as int,
        c,
    ) by {
        let k = if c == class && j >= i {
            j + 1
        } else {
            j
        };
        assert(rest[c][j] == lists[c][k]);
        assert(apart(addr, class, lists[c][k] as int, c));
        assert(apart(buddy, class, rest[c][j] as int, c));
        lemma_class_bytes_pos(c);
    }
}

/// What giving a block back leaves: lists that are as they should be,
/// with the bytes of the block added to the free bytes.
pub proof fn lemma_after_free(lists: Seq<Seq<u64>>, addr: int, class: int)
    requires
        lists_wf(lists),
        block_ok(addr, class),
        clear_of(lists, addr, class),
    ensures
        lists_wf(after_free(lists, addr, class)),
        free_bytes(after_free(lists, addr, class)) == free_bytes(lists) + class_bytes(class),
    decreases N_BLOCK_SIZES - class,
{
    let buddy = buddy_of(addr, class);
    if class < N_BLOCK_SIZES - 1 && lists[class].contains(buddy as u64) {
        let rest = lists.update(class, lists[class].remove_value(buddy as u64));
        lemma_free_step(lists, addr, class);
        lemma_class_bytes_pos(class);
        lemma_after_free(rest, merged_addr(addr, class), class + 1);
    } else {
        lemma_with_block(lists, addr, class);
    }
}

} // verus!
