use rv_kernel::boot::{PHYS_PHEAP, PHYS_RAM_START, PHYS_STACK, VIRT_PHEAP, VIRT_RAM_START};
use rv_kernel::mem::addr::{Addr, PhysAddr, VirtAddr};

fn word_of<A: Addr>(addr: u64) -> Option<u64> {
    A::try_new(addr).map(|a| a.as_usize())
}

#[test]
fn canonical_addresses_are_accepted() {
    for addr in [
        0u64,
        0x1000,
        0x3f_ffff_ffff,
        0xffff_ffc0_0000_0000,
        0xffff_ffff_c000_0000,
        u64::MAX,
    ] {
        let virt = VirtAddr::try_new(addr).expect("canonical");
        assert_eq!(virt.as_usize(), addr);
    }
}

#[test]
fn non_canonical_addresses_are_rejected() {
    for addr in [
        0x40_0000_0000u64,
        0x0000_8000_0000_0000,
        0x8000_0000_0000_0000,
        0xffff_ffbf_ffff_ffff,
        0x0000_0080_0000_0000,
        0xffff_ff00_0000_0000,
    ] {
        assert!(VirtAddr::try_new(addr).is_none(), "{addr:#x}");
    }
}

#[test]
fn address_with_bit_47_only_is_not_canonical() {
    assert!(VirtAddr::try_new(0x0000_8000_0000_0000).is_none());
}

#[test]
fn new_keeps_the_word() {
    assert_eq!(VirtAddr::new(0xffff_ffff_c000_0000).as_usize(), 0xffff_ffff_c000_0000);
    assert_eq!(VirtAddr::new(0x8000_0000).as_usize(), 0x8000_0000);
}

#[test]
fn offsets_within_a_half_keep_an_address_canonical() {
    let base = VirtAddr::new(0xffff_ffff_bfc0_0000);
    let moved = VirtAddr::try_new(base.as_usize() + 0x20_0000).expect("still in the high half");
    assert_eq!(moved.as_usize(), 0xffff_ffff_bfe0_0000);
    assert_eq!(moved.as_usize() - 0x20_0000, base.as_usize());

    let low = VirtAddr::new(0x3f_ffff_f000);
    assert!(VirtAddr::try_new(low.as_usize() + 0xfff).is_some());
    assert!(VirtAddr::try_new(low.as_usize() + 0x1000).is_none());
}

#[test]
fn virtual_page_numbers() {
    let top = VirtAddr::new(0xffff_ffff_c000_0000);
    assert_eq!((top.vpn2(), top.vpn1(), top.vpn0()), (511, 0, 0));
    let stack = VirtAddr::new(0xffff_ffff_bfff_f000);
    assert_eq!((stack.vpn2(), stack.vpn1(), stack.vpn0()), (510, 511, 511));
    let ram = VirtAddr::new(0x8000_0000);
    assert_eq!((ram.vpn2(), ram.vpn1(), ram.vpn0()), (2, 0, 0));
    let mixed = VirtAddr::new(0x12_3456_7000);
    assert_eq!(mixed.vpn0(), 0x167);
    assert_eq!(mixed.vpn1(), 0x1a2);
    assert_eq!(mixed.vpn2(), 0x48);
}

#[test]
fn physical_page_numbers() {
    let addr = PhysAddr(0x8320_0000);
    assert_eq!(addr.as_usize(), 0x8320_0000);
    assert_eq!(addr.ppn(), 0x83200);
    assert_eq!(addr.ppn0(), 0x000);
    assert_eq!(addr.ppn1(), 0x019);
    assert_eq!(addr.ppn2(), 2);
    let wide = PhysAddr(0xffff_ffff_ffff_ffff);
    assert_eq!(wide.ppn(), 0xfff_ffff_ffff);
    assert_eq!(wide.ppn0(), 0x1ff);
    assert_eq!(wide.ppn1(), 0x1ff);
    assert_eq!(wide.ppn2(), 0x3ff_ffff);
}

#[test]
fn physical_addresses_add_and_subtract() {
    let base = PhysAddr(PHYS_PHEAP);
    assert_eq!(base + 0x20_0000, PhysAddr(PHYS_STACK));
    assert_eq!(PhysAddr(PHYS_STACK) - 0x20_0000, base);
    assert_eq!(PhysAddr(PHYS_STACK) - base, 0x20_0000);
    assert!(PhysAddr(1) < PhysAddr(2));
}

#[test]
fn addresses_convert_to_words() {
    assert_eq!(u64::from(PhysAddr(0x8000_0000)), 0x8000_0000);
    assert_eq!(u64::from(VirtAddr::new(0xffff_ffff_c000_0000)), 0xffff_ffff_c000_0000);
}

#[test]
fn the_page_allocator_region_has_its_own_window() {
    assert_eq!(VIRT_PHEAP, 0xffff_ffff_bfc0_0000);
    assert_eq!(VirtAddr::from_phys(PhysAddr(PHYS_PHEAP)).as_usize(), VIRT_PHEAP);
    assert_eq!(
        VirtAddr::from_phys(PhysAddr(PHYS_PHEAP + 0x1f_f000)).as_usize(),
        VIRT_PHEAP + 0x1f_f000
    );
}

#[test]
fn the_rest_of_ram_is_seen_through_the_high_half() {
    assert_eq!(VirtAddr::from_phys(PhysAddr(PHYS_RAM_START)).as_usize(), VIRT_RAM_START);
    assert_eq!(
        VirtAddr::from_phys(PhysAddr(PHYS_STACK)).as_usize(),
        VIRT_RAM_START + 0x320_0000
    );
    assert_eq!(
        VirtAddr::from_phys(PhysAddr(0xbfff_ffff)).as_usize(),
        0xffff_ffff_ffff_ffff
    );
    assert_eq!(
        VirtAddr::from_phys(PhysAddr(PHYS_PHEAP - 1)).as_usize(),
        VIRT_RAM_START + 0x2ff_ffff
    );
}

#[test]
fn both_kinds_of_address_are_addresses() {
    assert_eq!(word_of::<PhysAddr>(0x0000_8000_0000_0000), Some(0x0000_8000_0000_0000));
    assert_eq!(word_of::<VirtAddr>(0x0000_8000_0000_0000), None);
    assert_eq!(word_of::<VirtAddr>(0x1000), Some(0x1000));
}
