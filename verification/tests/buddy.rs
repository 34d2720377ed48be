use rv_kernel::boot::{PHEAP_LEN, PHYS_PHEAP, PHYS_RAM_START, VIRT_PHEAP, VIRT_RAM_START};
use rv_kernel::mem::addr::PhysAddr;
use rv_kernel::mem::block::{order_size, Block, HIGHEST_ORDER, MAX_ORDER, ORDER_COUNT};
use rv_kernel::mem::buddy::{Allocation, BiBuddy};
use rv_kernel::mem::free_list::FreeList;
use rv_kernel::mem::PAGE_SIZE;

const MIB: u64 = 1024 * 1024;

/// The block of the given order that starts `offset` bytes into the
/// page-allocator region.
fn block(offset: u64, order: usize) -> Block {
    Block::new(PhysAddr(PHYS_PHEAP + offset), order).expect("an aligned block")
}

/// An allocator that holds the page-allocator region as one block.
fn seeded() -> BiBuddy {
    let mut buddy = BiBuddy::new();
    buddy.claim(block(0, 9));
    buddy
}

fn lengths(buddy: &BiBuddy) -> Vec<usize> {
    (0..ORDER_COUNT).map(|order| buddy.free_list(order).len()).collect()
}

fn range(allocation: &Allocation) -> (u64, u64) {
    let start = allocation.start().as_usize();
    (start, start + allocation.size())
}

fn assert_disjoint(allocations: &[Allocation]) {
    for (i, a) in allocations.iter().enumerate() {
        let (a_start, a_end) = range(a);
        assert_eq!(a_start % a.size(), 0);
        for b in &allocations[i + 1..] {
            let (b_start, b_end) = range(b);
            assert!(a_end <= b_start || b_end <= a_start, "{a:?} and {b:?} overlap");
        }
    }
}

#[test]
fn the_constants_of_the_allocator() {
    assert_eq!(PAGE_SIZE, 4096);
    assert_eq!(HIGHEST_ORDER, 12);
    assert_eq!(ORDER_COUNT, 13);
    assert_eq!(MAX_ORDER, 51);
}

#[test]
fn block_sizes_double_from_one_page() {
    assert_eq!(order_size(0), 4096);
    assert_eq!(order_size(1), 8192);
    assert_eq!(order_size(3), 32 * 1024);
    assert_eq!(order_size(9), 2 * MIB);
    assert_eq!(order_size(12), 16 * MIB);
    assert_eq!(order_size(51), 1 << 63);
}

#[test]
fn a_block_starts_at_a_multiple_of_its_size() {
    assert!(Block::new(PhysAddr(PHYS_PHEAP + 0x1000), 1).is_none());
    assert!(Block::new(PhysAddr(PHYS_PHEAP + 0x800), 0).is_none());
    assert!(Block::new(PhysAddr(PHYS_PHEAP + MIB), 9).is_none());
    let page = block(0x1000, 0);
    assert_eq!(page.addr(), VIRT_PHEAP + 0x1000);
    assert_eq!(page.order(), 0);
    let half = block(MIB, 8);
    assert_eq!(half.addr(), VIRT_PHEAP + MIB);
    assert_eq!(half.order(), 8);
}

#[test]
fn a_block_is_named_by_the_address_the_kernel_reaches_it_under() {
    let in_window = Block::new(PhysAddr(PHYS_RAM_START), 18).expect("the gigapage of RAM");
    assert_eq!(in_window.addr(), VIRT_RAM_START);
    assert_eq!(in_window.order(), 18);
    assert_eq!(block(0, 10).addr(), VIRT_PHEAP);
}

#[test]
fn no_block_where_the_kernel_address_is_not_a_multiple_of_the_size() {
    // 0x8300_0000 is a multiple of 16 MiB; the address it is reached under is
    // a multiple of 4 MiB only.
    assert!(Block::new(PhysAddr(PHYS_PHEAP), 12).is_none());
    assert!(Block::new(PhysAddr(PHYS_PHEAP), 11).is_none());
    assert!(Block::new(PhysAddr(PHYS_RAM_START), 19).is_none());
    assert!(Block::new(PhysAddr(PHYS_RAM_START), MAX_ORDER).is_none());
}

#[test]
fn the_region_of_the_page_allocator_is_one_block() {
    let region = Block::from_range(PhysAddr(PHYS_PHEAP), PhysAddr(PHYS_PHEAP + PHEAP_LEN)).unwrap();
    assert_eq!(region.addr(), VIRT_PHEAP);
    assert_eq!(region.order(), 9);
}

#[test]
fn a_range_gives_the_largest_power_of_two_of_pages_that_fits() {
    let three = Block::from_range(PhysAddr(PHYS_PHEAP), PhysAddr(PHYS_PHEAP + 0x3000)).unwrap();
    assert_eq!((three.addr(), three.order()), (VIRT_PHEAP, 1));
    let nearly =
        Block::from_range(PhysAddr(PHYS_PHEAP), PhysAddr(PHYS_PHEAP + PHEAP_LEN - 1)).unwrap();
    assert_eq!((nearly.addr(), nearly.order()), (VIRT_PHEAP, 8));
    let upper =
        Block::from_range(PhysAddr(PHYS_PHEAP + MIB), PhysAddr(PHYS_PHEAP + PHEAP_LEN)).unwrap();
    assert_eq!((upper.addr(), upper.order()), (VIRT_PHEAP + MIB, 8));
    let one = Block::from_range(PhysAddr(PHYS_PHEAP), PhysAddr(PHYS_PHEAP + 0x1000)).unwrap();
    assert_eq!((one.addr(), one.order()), (VIRT_PHEAP, 0));
}

#[test]
fn a_range_starts_at_the_next_page_boundary() {
    let rounded =
        Block::from_range(PhysAddr(PHYS_PHEAP + 1), PhysAddr(PHYS_PHEAP + 0x2000)).unwrap();
    assert_eq!((rounded.addr(), rounded.order()), (VIRT_PHEAP + 0x1000, 0));
    let last =
        Block::from_range(PhysAddr(PHYS_PHEAP + 0xfff), PhysAddr(PHYS_PHEAP + 0x2000)).unwrap();
    assert_eq!((last.addr(), last.order()), (VIRT_PHEAP + 0x1000, 0));
}

#[test]
fn a_range_gives_a_smaller_block_where_the_start_is_not_aligned_to_the_larger() {
    // 511 pages fit, but the start is a multiple of one page only.
    let odd =
        Block::from_range(PhysAddr(PHYS_PHEAP + 0x1000), PhysAddr(PHYS_PHEAP + PHEAP_LEN)).unwrap();
    assert_eq!((odd.addr(), odd.order()), (VIRT_PHEAP + 0x1000, 0));
    // 508 pages fit, and the start is a multiple of four pages.
    let four =
        Block::from_range(PhysAddr(PHYS_PHEAP + 0x4000), PhysAddr(PHYS_PHEAP + PHEAP_LEN)).unwrap();
    assert_eq!((four.addr(), four.order()), (VIRT_PHEAP + 0x4000, 2));
}

#[test]
fn a_range_without_a_whole_page_gives_no_block() {
    assert!(Block::from_range(PhysAddr(PHYS_PHEAP), PhysAddr(PHYS_PHEAP)).is_none());
    assert!(Block::from_range(PhysAddr(PHYS_PHEAP), PhysAddr(PHYS_PHEAP + 0xfff)).is_none());
    assert!(Block::from_range(PhysAddr(PHYS_PHEAP + 0x1000), PhysAddr(PHYS_PHEAP)).is_none());
    assert!(Block::from_range(PhysAddr(PHYS_PHEAP + 1), PhysAddr(PHYS_PHEAP + 0x1fff)).is_none());
    assert!(Block::from_range(PhysAddr(PHYS_PHEAP + 1), PhysAddr(PHYS_PHEAP + 0x1000)).is_none());
}

#[test]
fn the_buddy_is_the_block_next_door() {
    assert_eq!(block(0, 0).buddy_addr(), VIRT_PHEAP + 0x1000);
    assert_eq!(block(0x1000, 0).buddy_addr(), VIRT_PHEAP);
    assert_eq!(block(0x2000, 0).buddy_addr(), VIRT_PHEAP + 0x3000);
    assert_eq!(block(0x2000, 1).buddy_addr(), VIRT_PHEAP);
    assert_eq!(block(MIB, 8).buddy_addr(), VIRT_PHEAP);
    assert_eq!(block(0, 8).buddy_addr(), VIRT_PHEAP + MIB);
    assert_eq!(block(0, 8).buddy_addr(), block(0, 8).addr() ^ order_size(8));
}

#[test]
fn splitting_keeps_the_lower_half_and_returns_the_upper() {
    let mut whole = block(0, 9);
    let upper = whole.split();
    assert_eq!((whole.addr(), whole.order()), (VIRT_PHEAP, 8));
    assert_eq!((upper.addr(), upper.order()), (VIRT_PHEAP + MIB, 8));
    let mut quarter = upper;
    let last = quarter.split();
    assert_eq!((quarter.addr(), quarter.order()), (VIRT_PHEAP + MIB, 7));
    assert_eq!((last.addr(), last.order()), (VIRT_PHEAP + MIB + MIB / 2, 7));
}

#[test]
fn merging_gives_the_lower_address_and_the_next_order() {
    let merged = Block::merge(block(0x4000, 2), block(0, 2));
    assert_eq!((merged.addr(), merged.order()), (VIRT_PHEAP, 3));
    let merged = Block::merge(block(0, 2), block(0x4000, 2));
    assert_eq!((merged.addr(), merged.order()), (VIRT_PHEAP, 3));
    let mut whole = block(0x10_0000, 5);
    let upper = whole.split();
    let back = Block::merge(upper, whole);
    assert_eq!((back.addr(), back.order()), (VIRT_PHEAP + 0x10_0000, 5));
}

#[test]
fn a_free_list_is_last_in_first_out() {
    let mut list = FreeList::new();
    assert_eq!(list.len(), 0);
    assert!(list.peek().is_none());
    assert!(list.pop().is_none());
    list.push(block(0, 0));
    list.push(block(0x1000, 0));
    list.push(block(0x2000, 0));
    assert_eq!(list.len(), 3);
    assert_eq!(list.peek().unwrap().addr(), VIRT_PHEAP + 0x2000);
    assert_eq!(list.pop().unwrap().addr(), VIRT_PHEAP + 0x2000);
    assert_eq!(list.pop().unwrap().addr(), VIRT_PHEAP + 0x1000);
    assert_eq!(list.pop().unwrap().addr(), VIRT_PHEAP);
    assert!(list.pop().is_none());
    assert_eq!(list.len(), 0);
}

#[test]
fn the_head_can_be_changed_in_place() {
    let mut list = FreeList::new();
    assert!(list.peek_mut().is_none());
    list.push(block(0, 1));
    list.push(block(0x4000, 2));
    let upper = list.peek_mut().unwrap().split();
    assert_eq!((upper.addr(), upper.order()), (VIRT_PHEAP + 0x6000, 1));
    let head = list.peek().unwrap();
    assert_eq!((head.addr(), head.order()), (VIRT_PHEAP + 0x4000, 1));
    assert_eq!(list.len(), 2);
}

#[test]
fn remove_if_takes_the_match_nearest_the_head() {
    let mut list = FreeList::new();
    for page in 0..5u64 {
        list.push(block(page * 0x1000, 0));
    }
    let even = list.remove_if(|b| b.addr() % 0x2000 == 0).unwrap();
    assert_eq!(even.addr(), VIRT_PHEAP + 0x4000);
    let even = list.remove_if(|b| b.addr() % 0x2000 == 0).unwrap();
    assert_eq!(even.addr(), VIRT_PHEAP + 0x2000);
    assert!(list.remove_if(|b| b.order() == 1).is_none());
    assert_eq!(list.len(), 3);
    // What stays keeps its order.
    assert_eq!(list.pop().unwrap().addr(), VIRT_PHEAP + 0x3000);
    assert_eq!(list.pop().unwrap().addr(), VIRT_PHEAP + 0x1000);
    assert_eq!(list.pop().unwrap().addr(), VIRT_PHEAP);
}

#[test]
fn remove_if_on_the_head_and_on_the_tail() {
    let mut list = FreeList::new();
    assert!(list.remove_if(|_| true).is_none());
    list.push(block(0, 0));
    list.push(block(0x1000, 0));
    list.push(block(0x2000, 0));
    assert_eq!(list.remove_if(|b| b.addr() == VIRT_PHEAP).unwrap().addr(), VIRT_PHEAP);
    assert_eq!(list.remove_if(|_| true).unwrap().addr(), VIRT_PHEAP + 0x2000);
    assert_eq!(list.len(), 1);
    assert_eq!(list.peek().unwrap().addr(), VIRT_PHEAP + 0x1000);
}

#[test]
fn a_new_allocator_holds_nothing() {
    let mut buddy = BiBuddy::new();
    assert_eq!(lengths(&buddy), vec![0; 13]);
    for order in 0..=HIGHEST_ORDER {
        assert!(buddy.allocate(order).is_none());
    }
}

#[test]
fn a_claimed_block_is_what_the_next_request_for_its_order_gets() {
    for order in 0..=9usize {
        let mut buddy = BiBuddy::new();
        buddy.claim(block(0, order));
        let got = buddy.allocate(order).expect("the block just claimed");
        assert_eq!(got.start().as_usize(), VIRT_PHEAP);
        assert_eq!(got.order(), order);
        assert_eq!(got.size(), 4096 << order);
        assert_eq!(lengths(&buddy), vec![0; 13]);
    }
}

#[test]
fn the_last_claimed_block_of_an_order_goes_out_first() {
    let mut buddy = BiBuddy::new();
    buddy.claim(block(0, 2));
    buddy.claim(block(0x10_0000, 2));
    assert_eq!(buddy.allocate(2).unwrap().start().as_usize(), VIRT_PHEAP + 0x10_0000);
    assert_eq!(buddy.allocate(2).unwrap().start().as_usize(), VIRT_PHEAP);
    assert!(buddy.allocate(2).is_none());
}

#[test]
fn an_allocation_is_cut_from_the_first_stocked_list() {
    let mut buddy = seeded();
    let got = buddy.allocate(3).unwrap();
    assert_eq!(got.start().as_usize(), VIRT_PHEAP);
    assert_eq!(got.order(), 3);
    assert_eq!(got.end().as_usize(), VIRT_PHEAP + 0x8000);
    assert_eq!(lengths(&buddy), vec![0, 0, 0, 1, 1, 1, 1, 1, 1, 0, 0, 0, 0]);
    for order in 3..9usize {
        let head = buddy.free_list(order).peek().unwrap();
        assert_eq!(head.addr(), VIRT_PHEAP + (4096 << order));
        assert_eq!(head.order(), order);
    }
    // The next request of the same order is served without a cut.
    let next = buddy.allocate(3).unwrap();
    assert_eq!(next.start().as_usize(), VIRT_PHEAP + 0x8000);
    assert_eq!(lengths(&buddy), vec![0, 0, 0, 0, 1, 1, 1, 1, 1, 0, 0, 0, 0]);
    // A smaller one cuts the smallest block that is large enough.
    let small = buddy.allocate(0).unwrap();
    assert_eq!(small.start().as_usize(), VIRT_PHEAP + 0x10000);
    assert_eq!(lengths(&buddy), vec![1, 1, 1, 1, 0, 1, 1, 1, 1, 0, 0, 0, 0]);
}

#[test]
fn a_request_above_what_is_stocked_gives_none() {
    let mut buddy = seeded();
    assert!(buddy.allocate(10).is_none());
    assert!(buddy.allocate(11).is_none());
    assert!(buddy.allocate(12).is_none());
    assert_eq!(lengths(&buddy), vec![0, 0, 0, 0, 0, 0, 0, 0, 0, 1, 0, 0, 0]);
    assert!(buddy.allocate(9).is_some());
    assert!(buddy.allocate(9).is_none());
    assert!(buddy.allocate(0).is_none());
}

#[test]
fn two_buddies_given_back_become_one_block() {
    for order in 0..9usize {
        let mut buddy = BiBuddy::new();
        buddy.claim(block(0, order + 1));
        let a = buddy.allocate(order).unwrap();
        let b = buddy.allocate(order).unwrap();
        assert_eq!(a.start().as_usize(), VIRT_PHEAP);
        assert_eq!(b.start().as_usize(), VIRT_PHEAP + (4096 << order));
        assert_eq!(lengths(&buddy), vec![0; 13]);
        buddy.free(a);
        assert_eq!(buddy.free_list(order).len(), 1);
        buddy.free(b);
        assert_eq!(buddy.free_list(order).len(), 0);
        assert_eq!(buddy.free_list(order + 1).len(), 1);
        let whole = buddy.free_list(order + 1).peek().unwrap();
        assert_eq!((whole.addr(), whole.order()), (VIRT_PHEAP, order + 1));
        assert_eq!(lengths(&buddy).iter().sum::<usize>(), 1);
    }
}

#[test]
fn the_order_in_which_buddies_come_back_does_not_matter() {
    let mut buddy = BiBuddy::new();
    buddy.claim(block(0, 4));
    let a = buddy.allocate(3).unwrap();
    let b = buddy.allocate(3).unwrap();
    buddy.free(b);
    buddy.free(a);
    assert_eq!(lengths(&buddy), vec![0, 0, 0, 0, 1, 0, 0, 0, 0, 0, 0, 0, 0]);
    assert_eq!(buddy.free_list(4).peek().unwrap().addr(), VIRT_PHEAP);
}

#[test]
fn a_release_joins_buddies_all_the_way_up() {
    let mut buddy = seeded();
    let page = buddy.allocate(0).unwrap();
    assert_eq!(lengths(&buddy), vec![1, 1, 1, 1, 1, 1, 1, 1, 1, 0, 0, 0, 0]);
    buddy.free(page);
    assert_eq!(lengths(&buddy), vec![0, 0, 0, 0, 0, 0, 0, 0, 0, 1, 0, 0, 0]);
    let whole = buddy.free_list(9).peek().unwrap();
    assert_eq!((whole.addr(), whole.order()), (VIRT_PHEAP, 9));
}

#[test]
fn a_block_whose_buddy_is_out_waits_on_its_list() {
    let mut buddy = BiBuddy::new();
    buddy.claim(block(0, 2));
    let a = buddy.allocate(0).unwrap();
    let b = buddy.allocate(0).unwrap();
    let c = buddy.allocate(0).unwrap();
    let d = buddy.allocate(0).unwrap();
    assert_eq!(
        [&a, &b, &c, &d].map(|x| x.start().as_usize() - VIRT_PHEAP),
        [0, 0x1000, 0x2000, 0x3000]
    );
    buddy.free(a);
    buddy.free(c);
    assert_eq!(lengths(&buddy)[..3], [2, 0, 0]);
    buddy.free(d);
    assert_eq!(lengths(&buddy)[..3], [1, 1, 0]);
    assert_eq!(buddy.free_list(1).peek().unwrap().addr(), VIRT_PHEAP + 0x2000);
    buddy.free(b);
    assert_eq!(lengths(&buddy)[..3], [0, 0, 1]);
}

#[test]
fn outstanding_allocations_never_overlap() {
    let mut buddy = seeded();
    let mut out: Vec<Allocation> = Vec::new();
    for order in [0usize, 3, 0, 5, 1, 7, 0, 2, 6, 4] {
        out.push(buddy.allocate(order).expect("room in two mebibytes"));
        assert_disjoint(&out);
    }
    for index in [7usize, 2, 4, 0] {
        buddy.free(out.remove(index));
        assert_disjoint(&out);
    }
    for order in [1usize, 0, 0, 2, 3, 0] {
        out.push(buddy.allocate(order).expect("room again"));
        assert_disjoint(&out);
    }
    for allocation in &out {
        let (start, end) = range(allocation);
        assert!(VIRT_PHEAP <= start && end <= VIRT_PHEAP + PHEAP_LEN);
    }
}

#[test]
fn every_page_can_go_out_and_come_back() {
    let mut buddy = seeded();
    let mut pages: Vec<Allocation> = Vec::new();
    while let Some(page) = buddy.allocate(0) {
        pages.push(page);
    }
    assert_eq!(pages.len(), 512);
    assert_disjoint(&pages);
    assert_eq!(lengths(&buddy), vec![0; 13]);
    // Give back the odd pages first, then the even ones.
    let (even, odd): (Vec<_>, Vec<_>) =
        pages.into_iter().partition(|p| (p.start().as_usize() / 4096) % 2 == 0);
    for page in odd {
        buddy.free(page);
    }
    assert_eq!(lengths(&buddy), vec![256, 0, 0, 0, 0, 0, 0, 0, 0, 0, 0, 0, 0]);
    for page in even {
        buddy.free(page);
    }
    assert_eq!(lengths(&buddy), vec![0, 0, 0, 0, 0, 0, 0, 0, 0, 1, 0, 0, 0]);
    assert_eq!(buddy.free_list(9).peek().unwrap().addr(), VIRT_PHEAP);
}

#[test]
fn a_block_above_the_highest_order_is_claimed_in_pieces() {
    let mut buddy = BiBuddy::new();
    let large = Block::new(PhysAddr(PHYS_RAM_START), 14).expect("64 MiB at the start of RAM");
    buddy.claim(large);
    assert_eq!(lengths(&buddy), vec![0, 0, 0, 0, 0, 0, 0, 0, 0, 0, 0, 0, 4]);
    let mut starts = Vec::new();
    while let Some(piece) = buddy.allocate(12) {
        assert_eq!(piece.order(), 12);
        assert_eq!(piece.size(), 16 * MIB);
        starts.push(piece.start().as_usize());
    }
    assert_eq!(
        starts,
        vec![
            VIRT_RAM_START,
            VIRT_RAM_START + 16 * MIB,
            VIRT_RAM_START + 32 * MIB,
            VIRT_RAM_START + 48 * MIB
        ]
    );
}

#[test]
fn a_block_one_above_the_highest_order_is_claimed_as_two() {
    let mut buddy = BiBuddy::new();
    buddy.claim(Block::new(PhysAddr(PHYS_RAM_START), 13).unwrap());
    assert_eq!(buddy.free_list(12).len(), 2);
    assert_eq!(buddy.free_list(12).peek().unwrap().addr(), VIRT_RAM_START);
    assert!(buddy.allocate(12).is_some());
    assert_eq!(buddy.free_list(12).peek().unwrap().addr(), VIRT_RAM_START + 16 * MIB);
}

#[test]
fn blocks_of_the_highest_order_stay_on_their_list() {
    let mut buddy = BiBuddy::new();
    buddy.claim(Block::new(PhysAddr(PHYS_RAM_START), 13).unwrap());
    let low = buddy.allocate(12).unwrap();
    let high = buddy.allocate(12).unwrap();
    assert_eq!(low.start().as_usize(), VIRT_RAM_START);
    assert_eq!(high.start().as_usize(), VIRT_RAM_START + 16 * MIB);
    buddy.free(high);
    assert_eq!(buddy.free_list(12).len(), 1);
    buddy.free(low);
    assert_eq!(lengths(&buddy), vec![0, 0, 0, 0, 0, 0, 0, 0, 0, 0, 0, 0, 2]);
    assert_eq!(buddy.free_list(12).peek().unwrap().addr(), VIRT_RAM_START);
    assert_eq!(buddy.allocate(12).unwrap().start().as_usize(), VIRT_RAM_START);
    assert_eq!(buddy.allocate(12).unwrap().start().as_usize(), VIRT_RAM_START + 16 * MIB);
}

#[test]
fn an_allocation_at_the_end_of_the_region_has_an_end() {
    let mut buddy = BiBuddy::new();
    buddy.claim(block(PHEAP_LEN - 0x1000, 0));
    let last = buddy.allocate(0).unwrap();
    assert_eq!(last.start().as_usize(), VIRT_PHEAP + PHEAP_LEN - 0x1000);
    assert_eq!(last.end().as_usize(), VIRT_PHEAP + PHEAP_LEN);
    assert_eq!(last.size(), 4096);
    assert_eq!(last.order(), 0);
}
