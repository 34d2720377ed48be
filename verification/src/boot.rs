//! The memory layout that is in force from the moment paging is switched on.

use crate::mem::addr::{PhysAddr, VirtAddr};
use crate::mem::block::{
    block_size, can_start, lemma_block_size_increases, lemma_block_size_values, Block, BlockView,
};
use crate::mem::buddy::{Allocation, BiBuddy, BuddyView};
use crate::mem::paging::entry::{Entry, EntryFlags, PPN_MASK};
use crate::mem::paging::table::{RawTable, ENTRY_COUNT};
use vstd::prelude::*;

verus! {

/// Physical address at which RAM begins.
pub const PHYS_RAM_START: u64 = 0x8000_0000;

/// Length of the gigapage of RAM that the kernel maps.
pub const KERNEL_MEM_LEN: u64 = 0x4000_0000;

/// Virtual address at which the high-half window onto RAM begins.
pub const VIRT_RAM_START: u64 = 0xffff_ffff_c000_0000;

/// Physical address of the region handed to the page allocator.
pub const PHYS_PHEAP: u64 = 0x8300_0000;

/// Length of the region handed to the page allocator.
pub const PHEAP_LEN: u64 = 0x20_0000;

/// Physical address of the boot stack, directly above the page-allocator region.
pub const PHYS_STACK: u64 = PHYS_PHEAP + PHEAP_LEN;

/// Length of the boot stack.
pub const STACK_LEN: u64 = 0x20_0000;

/// Virtual address of the top of the boot stack; the stack grows down from here.
pub const STACK_TOP: u64 = VIRT_RAM_START;

/// Virtual address at which the page-allocator region is visible, directly
/// below the stack.
pub const VIRT_PHEAP: u64 = VIRT_RAM_START - STACK_LEN - PHEAP_LEN;

/// The index in the root table of the entry that maps RAM at its physical
/// addresses.
pub const IDENTITY_SLOT: usize = 2;

/// The index in the root table of the entry that points to the stack's table.
pub const STACK_SLOT: usize = 510;

/// The index in the root table of the entry that maps RAM into the high half,
/// and in the stack's table of the entry that maps the stack.
pub const LAST_SLOT: usize = 511;

/// The flags of the entries that map the kernel's gigapage: it can be read,
/// written and fetched from in every address space, and counts as accessed
/// and written from the start.
pub const KERNEL_FLAGS: u64 = EntryFlags::VALID | EntryFlags::READ | EntryFlags::WRITE
    | EntryFlags::EXECUTE | EntryFlags::GLOBAL | EntryFlags::ACCESSED | EntryFlags::DIRTY;

/// The flags of the entry that maps the stack: as [`KERNEL_FLAGS`], but
/// nothing can be fetched from it.
pub const STACK_FLAGS: u64 = EntryFlags::VALID | EntryFlags::READ | EntryFlags::WRITE
    | EntryFlags::GLOBAL | EntryFlags::ACCESSED | EntryFlags::DIRTY;

/// The flags of an entry that points to a table: it is in use in every
/// address space, and has no other flag.
pub const POINTER_FLAGS: u64 = EntryFlags::VALID | EntryFlags::GLOBAL;

/// The mode field of the address-translation register for Sv39.
pub const SATP_SV39: u64 = 8 << 60;

/// The entry that maps the page with the given number with the given flags.
pub open spec fn spec_mapping(ppn: u64, flags: u64) -> Entry {
    Entry::new_spec().spec_with_ppn(ppn).spec_with_flags(EntryFlags::from_bits_spec(flags))
}

/// The entry that maps the kernel's gigapage of RAM.
pub fn kernel_pte() -> (r: Entry)
    ensures
        r == spec_mapping(PHYS_RAM_START / 0x1000, KERNEL_FLAGS),
        r.spec_ppn() == PHYS_RAM_START / 0x1000,
        r.spec_flags() == KERNEL_FLAGS,
        r.spec_valid(),
        r.spec_is_leaf(),
{
    let flags = EntryFlags::from_bits_retain(KERNEL_FLAGS);
    let r = Entry::new().with_ppn(PhysAddr(PHYS_RAM_START).ppn()).with_flags(flags);
    proof {
        lemma_flag_words();
        crate::mem::paging::entry::lemma_entry_round_trip(
            Entry::new_spec(),
            (PHYS_RAM_START / 0x1000) as u64,
            flags,
        );
    }
    r
}

/// The entry that maps the boot stack.
pub fn stack_pte() -> (r: Entry)
    ensures
        r == spec_mapping(PHYS_STACK / 0x1000, STACK_FLAGS),
        r.spec_ppn() == PHYS_STACK / 0x1000,
        r.spec_flags() == STACK_FLAGS,
        r.spec_valid(),
        r.spec_is_leaf(),
{
    let flags = EntryFlags::from_bits_retain(STACK_FLAGS);
    let r = Entry::new().with_ppn(PhysAddr(PHYS_STACK).ppn()).with_flags(flags);
    proof {
        lemma_flag_words();
        crate::mem::paging::entry::lemma_entry_round_trip(
            Entry::new_spec(),
            (PHYS_STACK / 0x1000) as u64,
            flags,
        );
    }
    r
}

/// The flag words, and what the validity and leaf tests make of a word whose
/// low ten bits are one of them.
proof fn lemma_flag_words()
    ensures
        KERNEL_FLAGS == 0xef,
        STACK_FLAGS == 0xe7,
        POINTER_FLAGS == 0x21,
        forall|w: u64|
            #![trigger w & 0x3ff]
            w & 0x3ff == 0xef || w & 0x3ff == 0xe7 ==> w & 1 == 1 && w & (2u64 | 4u64 | 8u64) != 0,
        forall|w: u64|
            #![trigger w & 0x3ff]
            w & 0x3ff == 0x21 ==> w & 1 == 1 && w & (2u64 | 4u64 | 8u64) == 0 && w & (64u64
                | 128u64) == 0,
{
    assert(1u64 | 2u64 | 4u64 | 8u64 | 32u64 | 64u64 | 128u64 == 0xef) by (bit_vector);
    assert(1u64 | 2u64 | 4u64 | 32u64 | 64u64 | 128u64 == 0xe7) by (bit_vector);
    assert(1u64 | 32u64 == 0x21) by (bit_vector);
    assert forall|w: u64| #![trigger w & 0x3ff] w & 0x3ff == 0xef || w & 0x3ff == 0xe7 implies w & 1
        == 1 && w & (2u64 | 4u64 | 8u64) != 0 by {
        assert(w & 0x3ff == 0xef || w & 0x3ff == 0xe7 ==> w & 1 == 1 && w & (2u64 | 4u64 | 8u64)
            != 0) by (bit_vector);
    }
    assert forall|w: u64| #![trigger w & 0x3ff] w & 0x3ff == 0x21 implies w & 1 == 1 && w & (2u64
        | 4u64 | 8u64) == 0 && w & (64u64 | 128u64) == 0 by {
        assert(w & 0x3ff == 0x21 ==> w & 1 == 1 && w & (2u64 | 4u64 | 8u64) == 0 && w & (64u64
            | 128u64) == 0) by (bit_vector);
    }
}

/// The table that maps the boot stack: its last entry maps the stack, and no
/// other entry is in use.
pub fn stack_table() -> (r: RawTable)
    ensures
        r.0@[LAST_SLOT as int] == spec_mapping(PHYS_STACK / 0x1000, STACK_FLAGS),
        forall|i: int| 0 <= i < ENTRY_COUNT && i != LAST_SLOT ==> (#[trigger] r.0@[i])@ == 0,
{
    let mut table = [Entry::new();ENTRY_COUNT];
    table[LAST_SLOT] = stack_pte();
    RawTable(table)
}

/// The kernel's root table as it is built before the machine starts: the
/// gigapage of RAM is mapped at its physical addresses, so that the
/// instruction after the switch to paging can still be fetched, and once more
/// as the last gigapage of the address space. No other entry is in use; the
/// entry for the stack's table is written at boot, by
/// [`link_stack_table`].
pub fn kernel_table() -> (r: RawTable)
    ensures
        r.0@[IDENTITY_SLOT as int] == spec_mapping(PHYS_RAM_START / 0x1000, KERNEL_FLAGS),
        r.0@[LAST_SLOT as int] == spec_mapping(PHYS_RAM_START / 0x1000, KERNEL_FLAGS),
        forall|i: int|
            0 <= i < ENTRY_COUNT && i != IDENTITY_SLOT && i != LAST_SLOT ==> (#[trigger] r.0@[i])@
                == 0,
{
    let mut table = [Entry::new();ENTRY_COUNT];
    table[VirtAddr::new(PHYS_RAM_START).vpn2()] = kernel_pte();
    table[LAST_SLOT] = kernel_pte();
    RawTable(table)
}

/// The entry that points to the table at the physical address `table`: the
/// table's page number with [`POINTER_FLAGS`]. It maps no page, and so has
/// neither ACCESSED nor DIRTY.
pub fn table_pointer(table: PhysAddr) -> (r: Entry)
    ensures
        r == spec_mapping(((table.0 / 0x1000) % 0x1000_0000_0000) as u64, POINTER_FLAGS),
        r.spec_ppn() == (table.0 / 0x1000) % 0x1000_0000_0000,
        r.spec_flags() == POINTER_FLAGS,
        r.spec_valid(),
        !r.spec_is_leaf(),
        r.flags_consistent(),
{
    let flags = EntryFlags::from_bits_retain(POINTER_FLAGS);
    let ppn = table.ppn();
    let r = Entry::new().with_ppn(ppn).with_flags(flags);
    proof {
        lemma_flag_words();
        crate::mem::paging::entry::lemma_entry_round_trip(Entry::new_spec(), ppn, flags);
    }
    r
}

/// Writes the entry that points to the stack's table, which lies at the
/// physical address `stack_table`, into the root table. From then on the
/// address just below [`STACK_TOP`] leads through entry [`STACK_SLOT`] of the
/// root to the last entry of the stack's table.
pub fn link_stack_table(root: &mut RawTable, stack_table: PhysAddr)
    ensures
        final(root).0@ == old(root).0@.update(
            STACK_SLOT as int,
            spec_mapping(((stack_table.0 / 0x1000) % 0x1000_0000_0000) as u64, POINTER_FLAGS),
        ),
{
    root.0[STACK_SLOT] = table_pointer(stack_table);
}

/// The value of the address-translation register that makes the table at the
/// physical address `root` the root table under Sv39: the table's page number
/// below the mode.
pub fn satp(root: PhysAddr) -> (r: u64)
    ensures
        r == (root.0 / 0x1000) % 0x1000_0000_0000 + 0x8000_0000_0000_0000,
        r == ((root.0 / 0x1000) % 0x1000_0000_0000) as u64 | SATP_SV39,
{
    let ppn: u64 = root.ppn();
    assert(ppn | (8u64 << 60) == ppn + 0x8000_0000_0000_0000) by (bit_vector)
        requires
            ppn < 0x1000_0000_0000,
    ;
    ppn | SATP_SV39
}

/// Where the address just below the top of the stack leads in the tables:
/// to entry 510 of the root, and to the last entry of the table below.
pub proof fn lemma_stack_slots()
    ensures
        ((STACK_TOP - 1) / 0x4000_0000) % 512 == STACK_SLOT,
        ((STACK_TOP - 1) / 0x20_0000) % 512 == LAST_SLOT,
        ((STACK_TOP - 1) / 0x1000) % 512 == LAST_SLOT,
        (PHYS_RAM_START / 0x4000_0000) % 512 == IDENTITY_SLOT,
        (VIRT_RAM_START / 0x4000_0000) % 512 == LAST_SLOT,
{
}

/// The order of the block that backs the kernel heap at first: eight pages.
pub const KERNEL_HEAP_ORDER: usize = 3;

/// The order of the block that spans the page-allocator region.
pub const PHEAP_ORDER: usize = 9;

/// The page-allocator region as one block.
pub open spec fn pheap_block() -> BlockView {
    BlockView { start: VIRT_PHEAP, order: PHEAP_ORDER as nat }
}

/// Brings up the page allocator: a new allocator is given the page-allocator
/// region as one block, and hands out the block that backs the kernel heap.
/// That block is the lowest of the region.
pub fn init_page_allocator() -> (r: (BiBuddy, Allocation))
    ensures
        r.0@ == BuddyView::empty().claimed(pheap_block()).allocated(KERNEL_HEAP_ORDER as nat),
        r.0@.wf(),
        r.0@.coalesced(),
        r.1@ == (BlockView { start: VIRT_PHEAP, order: KERNEL_HEAP_ORDER as nat }),
        r.0@.outstanding == Set::<BlockView>::empty().insert(r.1@),
{
    let mut buddy = BiBuddy::new();
    proof {
        lemma_block_size_values();
        assert(can_start(PHYS_PHEAP, 9));
        assert forall|higher: nat| 9 < higher implies block_size(higher) > 0x20_0000 by {
            lemma_block_size_increases(9, higher);
        }
    }
    let region = Block::from_range(PhysAddr(PHYS_PHEAP), PhysAddr(PHYS_PHEAP + PHEAP_LEN));
    let block = region.unwrap();
    proof {
        if block@.order < 9 {
            assert(!can_start(PHYS_PHEAP, 9));
        }
        assert(block@ == pheap_block());
    }
    buddy.claim(block);
    proof {
        crate::mem::buddy::lemma_claim_then_allocate(BuddyView::empty(), pheap_block());
        let claimed = BuddyView::empty().claimed(pheap_block());
        assert(claimed.free[PHEAP_ORDER as int].len() > 0);
        crate::mem::buddy::lemma_first_stocked(claimed, KERNEL_HEAP_ORDER as nat);
        assert forall|k: int| 0 <= k < 13 && k != 9 implies (#[trigger] claimed.free[k]).len()
            == 0 by {}
        assert(claimed.first_stocked(KERNEL_HEAP_ORDER as nat) == 9);
    }
    let heap = buddy.allocate(KERNEL_HEAP_ORDER).unwrap();
    proof {
        assert(buddy@.outstanding =~= Set::<BlockView>::empty().insert(heap@));
    }
    (buddy, heap)
}

} // verus!
