use aarch64_kernel::memory::{
    in_kaddr_space, in_paddr_space, in_vaddr_space, kaddr_to_paddr, max_phys_addr, paddr_to_kaddr,
    Kaddr, Paddr, Pointer, Vaddr, KADDR_MAX, KADDR_MIN, MEM_SIZE, VADDR_MAX,
};

#[test]
fn addresses_keep_the_integer_they_were_made_from() {
    assert_eq!(Paddr::from_raw(0x8_0000).raw(), 0x8_0000);
    assert_eq!(Vaddr::from_raw(0x7fff_0000).raw(), 0x7fff_0000);
    assert_eq!(Kaddr::from_raw(0xffff_0000_0008_0000).raw(), 0xffff_0000_0008_0000);
    assert_eq!(u64::from(Paddr::from_raw(0x1234)), 0x1234);
    assert_eq!(u64::from(Vaddr::from_raw(0x1234)), 0x1234);
    assert_eq!(u64::from(Kaddr::from_raw(KADDR_MAX)), KADDR_MAX);
}

#[test]
fn addresses_are_ordered_as_their_integers() {
    assert!(Paddr::from_raw(0x1000) < Paddr::from_raw(0x2000));
    assert!(Paddr::from_raw(0x2000) >= Paddr::from_raw(0x2000));
    assert_eq!(Paddr::from_raw(0x2000), Paddr::from_raw(0x2000));
    assert_ne!(Kaddr::from_raw(KADDR_MIN), Kaddr::from_raw(KADDR_MAX));
    assert_eq!(Paddr::from_raw(0x1000).min(Paddr::from_raw(0x3000)).raw(), 0x1000);
}

#[test]
fn max_phys_addr_is_the_last_byte_of_memory() {
    assert_eq!(max_phys_addr().raw(), MEM_SIZE - 1);
    assert_eq!(max_phys_addr().raw(), 0xffff_ffff);
}

#[test]
fn address_spaces_have_their_bounds() {
    assert!(in_paddr_space(0));
    assert!(in_paddr_space(MEM_SIZE - 1));
    assert!(!in_paddr_space(MEM_SIZE));
    assert!(in_kaddr_space(KADDR_MIN));
    assert!(in_kaddr_space(KADDR_MAX));
    assert!(!in_kaddr_space(KADDR_MIN - 1));
    assert!(!in_kaddr_space(0x8_0000));
    assert!(in_vaddr_space(0));
    assert!(in_vaddr_space(VADDR_MAX));
    assert!(!in_vaddr_space(VADDR_MAX + 1));
    assert!(!in_vaddr_space(KADDR_MIN));
}

#[test]
fn kernel_addresses_lie_above_physical_ones_by_a_fixed_offset() {
    let paddr = Paddr::from_raw(0x8_0000);
    let kaddr = paddr_to_kaddr(paddr);
    assert_eq!(kaddr.raw(), 0xffff_0000_0008_0000);
    assert_eq!(kaddr_to_paddr(kaddr), paddr);
    assert_eq!(paddr_to_kaddr(Paddr::from_raw(0)).raw(), KADDR_MIN);
    assert_eq!(kaddr_to_paddr(Kaddr::from_raw(KADDR_MIN + 0xffff_ffff)), max_phys_addr());
}

#[test]
fn pointers_give_the_physical_address() {
    assert_eq!(Paddr::from_raw(0x8_0000).address(), 0x8_0000);
    assert_eq!(Kaddr::from_raw(0xffff_0000_0008_0000).address(), 0x8_0000);
    assert_eq!(paddr_to_kaddr(Paddr::from_raw(0x1000)).address(), 0x1000);
}
