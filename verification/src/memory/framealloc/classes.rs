//! Block size classes: the powers of two from one page to one gigabyte, and
//! the arithmetic of alignment and buddies on them.

use vstd::prelude::*;
use vstd::arithmetic::power2::{pow2, lemma_pow2_pos, lemma_pow2_unfold, lemma_pow2_strictly_increases, lemma2_to64};
use vstd::arithmetic::div_mod::{lemma_fundamental_div_mod, lemma_fundamental_div_mod_converse, lemma_mod_breakdown, lemma_mod_self_0, lemma_div_by_self};
use vstd::bits::{low_bits_mask, lemma_u64_shl_is_mul, lemma_u64_shr_is_div, lemma_u64_low_bits_mask_is_mod, lemma_u64_pow2_no_overflow};
use vstd::std_specs::bits::{u64_trailing_zeros, axiom_u64_trailing_zeros};
use crate::memory::MEM_SIZE;

verus! {

/// Base-two logarithm of the smallest block size.
pub const MIN_BLOCK: usize = 12;

/// Base-two logarithm of the largest block size.
pub const MAX_BLOCK: usize = 30;

/// How many size classes there are.
pub const N_BLOCK_SIZES: usize = 19;

/// Whether `class` is the ordinal of a size class.
pub open spec fn is_class(class: int) -> bool {
    0 <= class < N_BLOCK_SIZES
}

/// Bytes in a block of the given class: one page, doubled `class` times.
pub open spec fn class_bytes(class: int) -> int {
    pow2((class + MIN_BLOCK) as nat) as int
}

/// Whether `size` is the byte count of some size class.
pub open spec fn is_block_size(size: int) -> bool {
    exists|class: int| is_class(class) && size == #[trigger] class_bytes(class)
}

/// The class whose blocks hold `size` bytes.
pub open spec fn size_class(size: int) -> int {
    choose|class: int| is_class(class) && size == #[trigger] class_bytes(class)
}

/// Whether `addr` is a multiple of the block size of `class`.
pub open spec fn aligned_to(addr: int, class: int) -> bool {
    addr % class_bytes(class) == 0
}

/// The address of the other half of the block of the next class that
/// holds the block of `class` around `addr`.
pub open spec fn buddy_of(addr: int, class: int) -> int {
    let q = addr / class_bytes(class);
    if q % 2 == 0 {
        (q + 1) * class_bytes(class)
    } else {
        (q - 1) * class_bytes(class)
    }
}

/// A block holds a page at least, and twice what a block of the class
/// below holds.
pub proof fn lemma_class_bytes_pos(class: int)
    requires
        class >= 0,
    ensures
        class_bytes(class) >= 4096,
        class_bytes(class + 1) == 2 * class_bytes(class),
{
    lemma2_to64();
    lemma_pow2_unfold((class + 1 + MIN_BLOCK) as nat);
    if class > 0 {
        lemma_pow2_strictly_increases(12, (class + MIN_BLOCK) as nat);
    }
}

/// A block holds a page at least and a gigabyte at most.
pub proof fn lemma_class_bytes_bound(class: int)
    requires
        is_class(class),
    ensures
        4096 <= class_bytes(class) <= 0x4000_0000,
{
    lemma2_to64();
    if class < 18 {
        lemma_pow2_strictly_increases((class + MIN_BLOCK) as nat, 30);
    }
    lemma_class_bytes_pos(class);
}

/// For a positive `s`, the multiples of `2 * s` are the even multiples of `s`.
proof fn lemma_even_multiple(x: int, s: int)
    requires
        0 <= x,
        0 < s,
    ensures
        x % (2 * s) == 0 <==> (x % s == 0 && (x / s) % 2 == 0),
{
    lemma_mod_breakdown(x, s, 2);
    let r = (x / s) % 2;
    assert(x % (s * 2) == s * r + x % s);
    assert(s * r == 0 <==> r == 0) by (nonlinear_arith)
        requires
            0 <= r < 2,
            0 < s,
    ;
    assert(s * r >= 0) by (nonlinear_arith)
        requires
            0 <= r,
            0 < s,
    ;
}

/// The multiples of `s` next to a multiple `x` of `s`.
proof fn lemma_next_multiple(x: int, s: int)
    requires
        0 <= x,
        0 < s,
        x % s == 0,
    ensures
        x == (x / s) * s,
        (x + s) % s == 0,
        (x + s) / s == x / s + 1,
        (x / s + 1) * s == x + s,
        x / s >= 1 ==> (x - s) >= 0 && (x - s) % s == 0 && (x - s) / s == x / s - 1 && (x / s - 1)
            * s == x - s,
        x / s >= 0,
{
    let q = x / s;
    lemma_fundamental_div_mod(x, s);
    assert(s * q == q * s) by (nonlinear_arith);
    assert((q + 1) * s == q * s + s) by (nonlinear_arith);
    assert((q - 1) * s == q * s - s) by (nonlinear_arith);
    lemma_fundamental_div_mod_converse(x + s, s, q + 1, 0);
    if q < 0 {
        assert(q * s < 0) by (nonlinear_arith)
            requires
                q < 0,
                s > 0,
        ;
    }
    if q >= 1 {
        assert(q * s >= s) by (nonlinear_arith)
            requires
                q >= 1,
                s > 0,
        ;
        lemma_fundamental_div_mod_converse(x - s, s, q - 1, 0);
    }
}

/// The two halves of a block are aligned blocks of the class below, and
/// each is the buddy of the other.
pub proof fn lemma_halves(addr: int, class: int)
    requires
        0 <= class,
        0 <= addr,
        aligned_to(addr, class + 1),
    ensures
        aligned_to(addr, class),
        aligned_to(addr + class_bytes(class), class),
        buddy_of(addr, class) == addr + class_bytes(class),
        buddy_of(addr + class_bytes(class), class) == addr,
{
    let s = class_bytes(class);
    lemma_class_bytes_pos(class);
    lemma_even_multiple(addr, s);
    lemma_next_multiple(addr, s);
    lemma_next_multiple(addr + s, s);
}

/// A block and its buddy are the two halves of an aligned block of the
/// next class, which starts at the lower of the two.
pub proof fn lemma_buddy_pair(addr: int, class: int)
    requires
        0 <= class,
        0 <= addr,
        aligned_to(addr, class),
    ensures
        buddy_of(addr, class) >= 0,
        aligned_to(buddy_of(addr, class), class),
        buddy_of(buddy_of(addr, class), class) == addr,
        buddy_of(addr, class) == addr + class_bytes(class) || buddy_of(addr, class) == addr
            - class_bytes(class),
        buddy_of(addr, class) > addr ==> aligned_to(addr, class + 1),
        buddy_of(addr, class) < addr ==> aligned_to(buddy_of(addr, class), class + 1),
{
    let s = class_bytes(class);
    let q = addr / s;
    lemma_class_bytes_pos(class);
    lemma_next_multiple(addr, s);
    lemma_even_multiple(addr, s);
    if q % 2 == 0 {
        lemma_next_multiple(addr + s, s);
    } else {
        lemma_next_multiple(addr - s, s);
        lemma_even_multiple(addr - s, s);
    }
}

/// Whether `k` counts how often two divides `x`; 64 stands for "without end".
pub open spec fn is_log2(x: int, k: int) -> bool {
    if x == 0 {
        k == 64
    } else {
        0 <= k < 64 && x % (pow2(k as nat) as int) == 0 && (x / (pow2(k as nat) as int)) % 2 == 1
    }
}

/// A multiple of a power of two is a multiple of every lower power, and
/// an even multiple of each of them.
pub proof fn lemma_divisible_below(x: int, hi: nat, lo: nat)
    requires
        0 <= x,
        lo <= hi,
        x % (pow2(hi) as int) == 0,
    ensures
        x % (pow2(lo) as int) == 0,
        lo < hi ==> (x / (pow2(lo) as int)) % 2 == 0,
    decreases hi - lo,
{
    if lo < hi {
        let below = (hi - 1) as nat;
        lemma_pow2_unfold(hi);
        lemma_pow2_pos(below);
        lemma_even_multiple(x, pow2(below) as int);
        if lo < below {
            lemma_divisible_below(x, below, lo);
        }
    }
}

/// Two divides a number only one number of times.
pub proof fn lemma_log2_unique(x: int, k1: int, k2: int)
    requires
        0 <= x,
        is_log2(x, k1),
        is_log2(x, k2),
    ensures
        k1 == k2,
{
    if x != 0 {
        if k1 < k2 {
            lemma_divisible_below(x, k2 as nat, k1 as nat);
        } else if k2 < k1 {
            lemma_divisible_below(x, k1 as nat, k2 as nat);
        }
    }
}

/// Two divides its own `k`-th power `k` times.
pub proof fn lemma_log2_of_pow2(k: nat)
    requires
        k < 64,
    ensures
        is_log2(pow2(k) as int, k as int),
{
    lemma_pow2_pos(k);
    lemma_mod_self_0(pow2(k) as int);
    lemma_div_by_self(pow2(k) as int);
}

/// The trailing zero bits of a word count how often two divides it.
pub proof fn lemma_trailing_zeros_is_log2(x: u64)
    ensures
        is_log2(x as int, u64_trailing_zeros(x) as int),
{
    axiom_u64_trailing_zeros(x);
    let t = u64_trailing_zeros(x) as u64;
    if x != 0 {
        lemma_u64_pow2_no_overflow(t as nat);
        lemma_u64_shl_is_mul(1, t);
        lemma_u64_low_bits_mask_is_mod(x, t as nat);
        lemma_u64_shr_is_div(x, t);
        let mask = ((1u64 << t) - 1) as u64;
        let rest = (64 - t) as u64;
        assert(mask == low_bits_mask(t as nat) as u64);
        assert(x << rest == 0);
        assert(x & mask == 0) by (bit_vector)
            requires
                t < 64,
                rest == 64 - t,
                x << rest == 0,
                mask == (1u64 << t) - 1,
        ;
        let top = x >> t;
        assert(top % 2 == 1) by (bit_vector)
            requires
                top & 1 == 1,
        ;
    }
}

/// An aligned block that starts in installed memory ends in it: the size
/// of memory is a multiple of every block size.
pub proof fn lemma_block_in_memory(addr: int, class: int)
    requires
        is_class(class),
        0 <= addr < MEM_SIZE,
        aligned_to(addr, class),
    ensures
        addr + class_bytes(class) <= MEM_SIZE,
{
    let s = class_bytes(class);
    let top = MEM_SIZE as int;
    lemma2_to64();
    lemma_class_bytes_pos(class);
    lemma_mod_self_0(pow2(32) as int);
    lemma_divisible_below(top, 32, (class + MIN_BLOCK) as nat);
    lemma_next_multiple(addr, s);
    lemma_next_multiple(top, s);
    let q = addr / s;
    let m = top / s;
    if q >= m {
        assert(q * s >= m * s) by (nonlinear_arith)
            requires
                q >= m,
                s > 0,
        ;
    }
    assert((q + 1) * s <= m * s) by (nonlinear_arith)
        requires
            q + 1 <= m,
            s > 0,
    ;
}

/// A block size belongs to one class only, whose ordinal is its logarithm
/// less that of the page size.
pub proof fn lemma_size_class(class: int)
    requires
        is_class(class),
    ensures
        is_block_size(class_bytes(class)),
        size_class(class_bytes(class)) == class,
        is_log2(class_bytes(class), class + MIN_BLOCK),
{
    let found = size_class(class_bytes(class));
    lemma_log2_of_pow2((class + MIN_BLOCK) as nat);
    lemma_log2_of_pow2((found + MIN_BLOCK) as nat);
    lemma_log2_unique(class_bytes(class), class + MIN_BLOCK, found + MIN_BLOCK);
}

/// Every block size is a whole number of pages.
pub proof fn lemma_class_bytes_pages(class: int)
    requires
        0 <= class,
    ensures
        class_bytes(class) % 4096 == 0,
        class_bytes(0) == 4096,
{
    lemma2_to64();
    lemma_class_bytes_pos(class);
    lemma_mod_self_0(class_bytes(class));
    lemma_divisible_below(class_bytes(class), (class + MIN_BLOCK) as nat, 12);
}

} // verus!
