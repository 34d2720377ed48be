use rv_kernel::boot::{
    init_page_allocator, kernel_pte, kernel_table, link_stack_table, satp, stack_pte, stack_table,
    table_pointer, IDENTITY_SLOT, KERNEL_FLAGS, LAST_SLOT, PHEAP_LEN, PHYS_PHEAP, PHYS_RAM_START,
    PHYS_STACK, POINTER_FLAGS, STACK_FLAGS, STACK_LEN, STACK_SLOT, STACK_TOP, VIRT_PHEAP,
    VIRT_RAM_START,
};
use rv_kernel::mem::addr::{PhysAddr, VirtAddr};
use rv_kernel::mem::paging::table::ENTRY_COUNT;

#[test]
fn the_memory_layout() {
    assert_eq!(PHYS_RAM_START, 0x8000_0000);
    assert_eq!(PHYS_PHEAP, 0x8300_0000);
    assert_eq!(PHEAP_LEN, 2 * 1024 * 1024);
    assert_eq!(PHYS_STACK, 0x8320_0000);
    assert_eq!(STACK_LEN, 2 * 1024 * 1024);
    assert_eq!(VIRT_RAM_START, 0xffff_ffff_c000_0000);
    assert_eq!(STACK_TOP, VIRT_RAM_START);
    assert_eq!(VIRT_PHEAP, VIRT_RAM_START - STACK_LEN - PHEAP_LEN);
}

#[test]
fn the_flag_words() {
    assert_eq!(KERNEL_FLAGS, 0xef);
    assert_eq!(STACK_FLAGS, 0xe7);
    assert_eq!(POINTER_FLAGS, 0x21);
}

#[test]
fn the_kernel_entry_maps_the_gigapage_of_ram() {
    let entry = kernel_pte();
    assert_eq!(entry.bits(), (0x80000 << 10) | 0xef);
    assert_eq!(entry.ppn(), 0x80000);
    assert!(entry.valid());
    assert!(entry.is_leaf());
}

#[test]
fn the_stack_entry_maps_the_stack() {
    let entry = stack_pte();
    assert_eq!(entry.bits(), (0x83200 << 10) | 0xe7);
    assert!(entry.valid());
    assert!(entry.is_leaf());
}

#[test]
fn the_root_table_maps_ram_twice() {
    let table = kernel_table();
    for (index, entry) in table.0.iter().enumerate() {
        if index == IDENTITY_SLOT || index == LAST_SLOT {
            assert_eq!(*entry, kernel_pte());
        } else {
            assert_eq!(entry.bits(), 0, "entry {index}");
        }
    }
    assert_eq!(IDENTITY_SLOT, VirtAddr::new(PHYS_RAM_START).vpn2());
    assert_eq!(LAST_SLOT, VirtAddr::new(VIRT_RAM_START).vpn2());
    assert_eq!(table.0.len(), ENTRY_COUNT);
}

#[test]
fn the_stack_table_maps_the_stack_last() {
    let table = stack_table();
    for (index, entry) in table.0.iter().enumerate() {
        if index == LAST_SLOT {
            assert_eq!(*entry, stack_pte());
        } else {
            assert_eq!(entry.bits(), 0, "entry {index}");
        }
    }
}

#[test]
fn a_table_pointer_has_no_access_flags() {
    let entry = table_pointer(PhysAddr(0x8020_1000));
    assert_eq!(entry.bits(), (0x80201 << 10) | 0x21);
    assert!(entry.valid());
    assert!(!entry.is_leaf());
    let unaligned = table_pointer(PhysAddr(0x8020_1fff));
    assert_eq!(unaligned, entry);
    let wide = table_pointer(PhysAddr(u64::MAX));
    assert_eq!(wide.ppn(), 0xfff_ffff_ffff);
    assert_eq!(wide.flags().bits(), 0x21);
}

#[test]
fn the_stack_table_is_linked_at_slot_510() {
    let mut root = kernel_table();
    link_stack_table(&mut root, PhysAddr(0x8020_1000));
    assert_eq!(STACK_SLOT, 510);
    assert_eq!(root.0[STACK_SLOT], table_pointer(PhysAddr(0x8020_1000)));
    assert_eq!(root.0[IDENTITY_SLOT], kernel_pte());
    assert_eq!(root.0[LAST_SLOT], kernel_pte());
    let below_top = VirtAddr::new(STACK_TOP - 1);
    assert_eq!(below_top.vpn2(), STACK_SLOT);
    assert_eq!(below_top.vpn1(), LAST_SLOT);
    assert_eq!(below_top.vpn0(), LAST_SLOT);
}

#[test]
fn satp_is_the_root_page_number_under_sv39() {
    assert_eq!(satp(PhysAddr(0x8020_0000)), 0x8000_0000_0008_0200);
    assert_eq!(satp(PhysAddr(0)), 0x8000_0000_0000_0000);
    assert_eq!(satp(PhysAddr(u64::MAX)), 0x8000_0fff_ffff_ffff);
}

#[test]
fn the_page_allocator_comes_up_with_the_heap_block() {
    let (mut buddy, heap) = init_page_allocator();
    assert_eq!(heap.start().as_usize(), VIRT_PHEAP);
    assert_eq!(heap.order(), 3);
    assert_eq!(heap.size(), 32 * 1024);
    assert_eq!(heap.end().as_usize(), VIRT_PHEAP + 32 * 1024);
    for order in 0..=12 {
        let expected = if (3..9).contains(&order) { 1 } else { 0 };
        assert_eq!(buddy.free_list(order).len(), expected, "order {order}");
    }
    for order in 3..9usize {
        let head = buddy.free_list(order).peek().unwrap();
        assert_eq!(head.addr(), VIRT_PHEAP + (4096 << order));
        assert_eq!(head.order(), order);
    }
    buddy.free(heap);
    assert_eq!(buddy.free_list(9).len(), 1);
    assert_eq!(buddy.free_list(9).peek().unwrap().addr(), VIRT_PHEAP);
}
