//! Typed addresses: physical ones, and the virtual ones of the kernel and
//! of user space. Each kind is a type of its own, made from an integer by
//! a conversion that takes only the integers of its range.

use vstd::prelude::*;

pub mod framealloc;

verus! {

pub const GIGABYTE: u64 = 0x4000_0000;

pub const PAGE_SIZE: u64 = 0x1000;

/// Bytes of physical memory installed on the board.
pub const MEM_SIZE: u64 = 0x1_0000_0000;

pub const VADDR_MIN: u64 = 0;

pub const VADDR_MAX: u64 = 0x0000_ffff_ffff_ffff;

pub const KADDR_MIN: u64 = 0xffff_0000_0000_0000;

pub const KADDR_MAX: u64 = 0xffff_ffff_ffff_ffff;

/// Whether `addr` is an address of installed physical memory.
pub open spec fn is_paddr(addr: int) -> bool {
    0 <= addr < MEM_SIZE
}

/// Whether `addr` is a virtual address of the kernel.
pub open spec fn is_kaddr(addr: int) -> bool {
    KADDR_MIN <= addr <= KADDR_MAX
}

/// Whether `addr` is a virtual address of user space.
pub open spec fn is_vaddr(addr: int) -> bool {
    VADDR_MIN <= addr <= VADDR_MAX
}

/// A physical address: one of installed memory.
#[derive(Copy, Clone, Debug, PartialEq, Eq, PartialOrd, Ord, Structural)]
pub struct Paddr(u64);

/// A virtual address of user space, in the range `VADDR_MIN..=VADDR_MAX`.
#[derive(Copy, Clone, Debug, PartialEq, Eq, PartialOrd, Ord, Structural)]
pub struct Vaddr(u64);

/// A virtual address of the kernel, in the range `KADDR_MIN..=KADDR_MAX`.
#[derive(Copy, Clone, Debug, PartialEq, Eq, PartialOrd, Ord, Structural)]
pub struct Kaddr(u64);

impl View for Paddr {
    type V = u64;

    closed spec fn view(&self) -> u64 {
        self.0
    }
}

impl View for Vaddr {
    type V = u64;

    closed spec fn view(&self) -> u64 {
        self.0
    }
}

impl View for Kaddr {
    type V = u64;

    closed spec fn view(&self) -> u64 {
        self.0
    }
}

impl Paddr {
    #[verifier::type_invariant]
    spec fn in_range(self) -> bool {
        is_paddr(self.0 as int)
    }

    /// The physical address `raw`, which has to be one of installed
    /// memory.
    pub fn from_raw(raw: u64) -> (r: Paddr)
        requires
            is_paddr(raw as int),
        ensures
            r@ == raw,
    {
        Paddr(raw)
    }

    /// The address as an integer.
    pub fn raw(self) -> (r: u64)
        ensures
            r == self@,
            is_paddr(r as int),
    {
        proof {
            use_type_invariant(&self);
        }
        self.0
    }
}

impl Vaddr {
    #[verifier::type_invariant]
    spec fn in_range(self) -> bool {
        is_vaddr(self.0 as int)
    }

    /// The user address `raw`, which has to lie in the range of user
    /// addresses.
    pub fn from_raw(raw: u64) -> (r: Vaddr)
        requires
            is_vaddr(raw as int),
        ensures
            r@ == raw,
    {
        Vaddr(raw)
    }

    /// The address as an integer.
    pub fn raw(self) -> (r: u64)
        ensures
            r == self@,
            is_vaddr(r as int),
    {
        proof {
            use_type_invariant(&self);
        }
        self.0
    }
}

impl Kaddr {
    #[verifier::type_invariant]
    spec fn in_range(self) -> bool {
        is_kaddr(self.0 as int)
    }

    /// The kernel address `raw`, which has to lie in the range of kernel
    /// addresses.
    pub fn from_raw(raw: u64) -> (r: Kaddr)
        requires
            is_kaddr(raw as int),
        ensures
            r@ == raw,
    {
        Kaddr(raw)
    }

    /// The address as an integer.
    pub fn raw(self) -> (r: u64)
        ensures
            r == self@,
            is_kaddr(r as int),
    {
        proof {
            use_type_invariant(&self);
        }
        self.0
    }
}

impl From<Paddr> for u64 {
    fn from(addr: Paddr) -> (r: u64) {
        addr.0
    }
}

impl vstd::std_specs::convert::FromSpecImpl<Paddr> for u64 {
    open spec fn obeys_from_spec() -> bool {
        true
    }

    open spec fn from_spec(addr: Paddr) -> u64 {
        addr@
    }
}

impl From<Vaddr> for u64 {
    fn from(addr: Vaddr) -> (r: u64) {
        addr.0
    }
}

impl vstd::std_specs::convert::FromSpecImpl<Vaddr> for u64 {
    open spec fn obeys_from_spec() -> bool {
        true
    }

    open spec fn from_spec(addr: Vaddr) -> u64 {
        addr@
    }
}

impl From<Kaddr> for u64 {
    fn from(addr: Kaddr) -> (r: u64) {
        addr.0
    }
}

impl vstd::std_specs::convert::FromSpecImpl<Kaddr> for u64 {
    open spec fn obeys_from_spec() -> bool {
        true
    }

    open spec fn from_spec(addr: Kaddr) -> u64 {
        addr@
    }
}

/// What stands for a place in physical memory.
pub trait Pointer: Sized {
    /// The physical address of the place.
    spec fn location(self) -> int;

    /// The physical address of the place, to read or write at.
    fn address(self) -> (r: u64)
        ensures
            r == self.location(),
    ;
}

impl Pointer for Paddr {
    open spec fn location(self) -> int {
        self@ as int
    }

    fn address(self) -> (r: u64) {
        self.0
    }
}

impl Pointer for Kaddr {
    open spec fn location(self) -> int {
        self@ - KADDR_MIN
    }

    fn address(self) -> (r: u64) {
        proof {
            use_type_invariant(&self);
        }
        self.0 - KADDR_MIN
    }
}

/// The last address of installed memory.
pub fn max_phys_addr() -> (r: Paddr)
    ensures
        r@ == MEM_SIZE - 1,
{
    Paddr(MEM_SIZE - 1)
}

/// Whether `addr` is an address of installed physical memory.
pub fn in_paddr_space(addr: u64) -> (r: bool)
    ensures
        r == is_paddr(addr as int),
{
    addr < MEM_SIZE
}

/// Whether `addr` is a virtual address of the kernel.
pub fn in_kaddr_space(addr: u64) -> (r: bool)
    ensures
        r == is_kaddr(addr as int),
{
    KADDR_MIN <= addr && addr <= KADDR_MAX
}

/// Whether `addr` is a virtual address of user space.
pub fn in_vaddr_space(addr: u64) -> (r: bool)
    ensures
        r == is_vaddr(addr as int),
{
    VADDR_MIN <= addr && addr <= VADDR_MAX
}

/// The address at which the kernel sees the physical address `paddr`:
/// higher by `KADDR_MIN`.
pub fn paddr_to_kaddr(paddr: Paddr) -> (r: Kaddr)
    ensures
        r@ == paddr@ + KADDR_MIN,
        r.location() == paddr.location(),
{
    proof {
        use_type_invariant(&paddr);
    }
    Kaddr(paddr.0 + KADDR_MIN)
}

/// The physical address that the kernel sees at `kaddr`: lower by
/// `KADDR_MIN`. It has to be one of installed memory.
pub fn kaddr_to_paddr(kaddr: Kaddr) -> (r: Paddr)
    requires
        is_paddr(kaddr@ - KADDR_MIN),
    ensures
        r@ == kaddr@ - KADDR_MIN,
        r.location() == kaddr.location(),
{
    proof {
        use_type_invariant(&kaddr);
    }
    Paddr(kaddr.0 - KADDR_MIN)
}

} // verus!
