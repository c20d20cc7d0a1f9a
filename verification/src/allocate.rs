//! A bump allocator for the kernel's heap: it hands out memory from one
//! address upwards and takes none back.

use vstd::prelude::*;

verus! {

/// The lowest multiple of `align` that is not below `addr`.
pub open spec fn align_up(addr: int, align: int) -> int {
    if addr % align == 0 {
        addr
    } else {
        addr + (align - addr % align)
    }
}

/// Where the memory starts that was not handed out yet.
pub struct Allocator {
    next_free_block: usize,
}

impl View for Allocator {
    type V = int;

    /// The address from which memory is handed out next.
    closed spec fn view(&self) -> int {
        self.next_free_block as int
    }
}

impl Allocator {
    /// An allocator that was given no memory yet: it stands at address
    /// zero.
    pub fn uninit() -> (r: Self)
        ensures
            r@ == 0,
    {
        Allocator { next_free_block: 0 }
    }

    /// Gives the allocator the memory from `mem` upwards.
    pub fn init(&mut self, mem: usize)
        ensures
            final(self)@ == mem,
    {
        self.next_free_block = mem;
    }

    /// The address from which memory is handed out next.
    pub fn next_free(&self) -> (r: usize)
        ensures
            r == self@,
    {
        self.next_free_block
    }

    /// Whether `size` bytes aligned to `align` can be handed out without
    /// leaving the range of addresses.
    pub fn has_room(&self, size: usize, align: usize) -> (r: bool)
        requires
            align > 0,
        ensures
            r == (align_up(self@, align as int) + size <= usize::MAX),
    {
        let rem = self.next_free_block % align;
        let pad = if rem == 0 {
            0
        } else {
            align - rem
        };
        pad <= usize::MAX - self.next_free_block && size <= usize::MAX - self.next_free_block - pad
    }

    /// Hands out `size` bytes aligned to `align`: they start at the
    /// lowest multiple of `align` from where the allocator stands, and
    /// the allocator stands behind them afterwards.
    pub fn allocate(&mut self, size: usize, align: usize) -> (r: usize)
        requires
            align > 0,
            align_up(old(self)@, align as int) + size <= usize::MAX,
        ensures
            r == align_up(old(self)@, align as int),
            r % align == 0,
            old(self)@ <= r < old(self)@ + align,
            final(self)@ == r + size,
    {
        let base = self.next_free_block;
        let rem = base % align;
        let allocation = if rem == 0 {
            base
        } else {
            base + (align - rem)
        };
        proof {
            lemma_align_up(base as int, align as int);
        }
        self.next_free_block = allocation + size;
        allocation
    }

    /// Takes memory back: it is not used again.
    pub fn dealloc(&mut self, ptr: usize, size: usize, align: usize)
        ensures
            final(self)@ == old(self)@,
    {
    }
}

/// The lowest multiple of `align` from `addr` is a multiple of `align`,
/// less than `align` above `addr`.
pub proof fn lemma_align_up(addr: int, align: int)
    requires
        0 <= addr,
        0 < align,
    ensures
        align_up(addr, align) % align == 0,
        addr <= align_up(addr, align) < addr + align,
{
    let q = addr / align;
    let rem = addr % align;
    vstd::arithmetic::div_mod::lemma_fundamental_div_mod(addr, align);
    if rem != 0 {
        assert(align * q + align == (q + 1) * align) by (nonlinear_arith);
        vstd::arithmetic::div_mod::lemma_fundamental_div_mod_converse(
            addr + (align - rem),
            align,
            q + 1,
            0,
        );
    }
}

} // verus!
