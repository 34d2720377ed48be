//! Blocks of pages.
//!
//! A block is a run of `2^order` pages whose start is a multiple of its size.
//! Its buddy is the block of the same order next to it with which it makes up
//! a block of the next order; the start of the buddy is the start of the block
//! with the bit of the size flipped.
//!
//! Blocks are named by the address under which the kernel reaches them.
//! Nothing here touches the memory they name.

use crate::mem::addr::{phys_to_virt, PhysAddr, VirtAddr};
use crate::mem::PAGE_SIZE;
use vstd::arithmetic::power2::{
    lemma2_to64, lemma2_to64_rest, lemma_pow2_adds, lemma_pow2_strictly_increases,
    lemma_pow2_unfold, pow2,
};
use vstd::prelude::*;

verus! {

/// The order of the largest blocks that the allocator keeps.
pub const HIGHEST_ORDER: usize = 12;

/// The number of free lists: one for each order from 0 to [`HIGHEST_ORDER`].
pub const ORDER_COUNT: usize = HIGHEST_ORDER + 1;

/// The largest order whose block size fits in a word.
pub const MAX_ORDER: usize = 51;

/// The size in bytes of a block of the given order: `2^order` pages.
pub open spec fn block_size(order: nat) -> nat {
    4096 * pow2(order)
}

/// The block sizes double from order to order, starting at one page.
pub proof fn lemma_block_size(order: nat)
    ensures
        block_size(0) == 0x1000,
        block_size(order) >= 0x1000,
        block_size(order + 1) == 2 * block_size(order),
        order > 0 ==> block_size(order) == 2 * block_size((order - 1) as nat),
{
    lemma2_to64();
    lemma_pow2_unfold(order + 1);
    if order > 0 {
        lemma_pow2_unfold(order);
        lemma_pow2_strictly_increases(0, order);
    }
}

/// A block of a higher order is at least as large.
pub proof fn lemma_block_size_increases(low: nat, high: nat)
    requires
        low <= high,
    ensures
        block_size(low) <= block_size(high),
        low < high ==> 2 * block_size(low) <= block_size(high),
{
    lemma_block_size(low);
    if low < high {
        if low + 1 < high {
            lemma_pow2_strictly_increases(low + 1, high);
        }
    }
}

/// The sizes that mark the limits of the allocator and of the address space.
pub proof fn lemma_block_size_values()
    ensures
        block_size(3) == 0x8000,
        block_size(9) == 0x20_0000,
        block_size(12) == 0x100_0000,
        block_size(26) == 0x40_0000_0000,
        block_size(27) == 0x80_0000_0000,
        block_size(51) == 0x8000_0000_0000_0000,
{
    lemma2_to64();
    lemma2_to64_rest();
}

/// The block size as the shift that computes it, and alignment to it as a mask.
proof fn lemma_block_size_bits(a: u64, order: nat)
    requires
        order <= MAX_ORDER,
    ensures
        block_size(order) == 4096u64 << (order as u64),
        block_size(order) == 4096 * (1u64 << (order as u64)),
        block_size(order) <= 0x8000_0000_0000_0000,
        a & (((4096u64 << (order as u64)) - 1) as u64) == a as nat % block_size(order),
{
    lemma2_to64();
    lemma_pow2_adds(12, order);
    lemma_block_size_increases(order, 51);
    lemma_block_size_values();
    vstd::bits::lemma_u64_shl_is_mul(4096, order as u64);
    vstd::bits::lemma_u64_shl_is_mul(1, order as u64);
    vstd::bits::lemma_u64_low_bits_mask_is_mod(a, 12 + order);
    lemma_block_size(order);
    assert(vstd::bits::low_bits_mask(12 + order) == block_size(order) - 1);
}

/// What holds of a word `a` whose low `12 + k` bits are clear.
proof fn lemma_aligned_bits(a: u64, k: u64)
    by (bit_vector)
    requires
        k <= 51,
        a & (((4096u64 << k) - 1) as u64) == 0,
    ensures
        (a ^ (4096u64 << k)) & (((4096u64 << k) - 1) as u64) == 0,
        a & (4096u64 << k) == 0 ==> a ^ (4096u64 << k) == a + (4096u64 << k),
        a & (4096u64 << k) != 0 ==> a ^ (4096u64 << k) == a - (4096u64 << k),
        a != 0 ==> a >= (4096u64 << k),
        a != 0 ==> a + (4096u64 << k) <= 0x1_0000_0000_0000_0000,
        a != 0 && a < 0x40_0000_0000 ==> a + (4096u64 << k) <= 0x40_0000_0000,
        a != 0 && (a < 0x40_0000_0000 || a >= 0xffff_ffc0_0000_0000) ==> k <= 26,
        k < 51 ==> a & (((4096u64 << ((k + 1) as u64)) - 1) as u64) == a & (4096u64 << k),
{
}

/// A block as the allocator's laws see it: where it starts and how large it is.
pub struct BlockView {
    /// The address of the first byte.
    pub start: u64,
    /// The order: the block spans `2^order` pages.
    pub order: nat,
}

impl BlockView {
    /// The size in bytes.
    pub open spec fn size(self) -> nat {
        block_size(self.order)
    }

    /// The address one past the last byte.
    pub open spec fn end(self) -> nat {
        self.start as nat + self.size()
    }

    /// Whether the start is a multiple of the size.
    pub open spec fn aligned(self) -> bool {
        self.start as nat % self.size() == 0
    }

    /// Whether this is a block that can exist: it does not start at address
    /// zero, its start is a multiple of its size, and all of it lies in one
    /// half of the canonical address space.
    pub open spec fn wf(self) -> bool {
        &&& self.order <= 26
        &&& self.start != 0
        &&& self.aligned()
        &&& self.end() <= 0x1_0000_0000_0000_0000
        &&& (self.end() <= 0x40_0000_0000 || self.start >= 0xffff_ffc0_0000_0000)
    }

    /// Whether the byte at `addr` is a byte of this block.
    pub open spec fn holds(self, addr: int) -> bool {
        self.start <= addr < self.end()
    }

    /// Whether the two blocks share a byte.
    pub open spec fn overlaps(self, other: BlockView) -> bool {
        self.start < other.end() && other.start < self.end()
    }

    /// Whether every byte of `other` is a byte of this block.
    pub open spec fn contains(self, other: BlockView) -> bool {
        self.start <= other.start && other.end() <= self.end()
    }

    /// The start of the buddy: the start with the bit of the size flipped.
    pub open spec fn buddy_start(self) -> u64 {
        self.start ^ (self.size() as u64)
    }

    /// The lower half of the block.
    pub open spec fn left(self) -> BlockView {
        BlockView { start: self.start, order: (self.order - 1) as nat }
    }

    /// The upper half of the block.
    pub open spec fn right(self) -> BlockView {
        BlockView {
            start: (self.start + block_size((self.order - 1) as nat)) as u64,
            order: (self.order - 1) as nat,
        }
    }

    /// The block that this block and its buddy make up together.
    pub open spec fn parent(self) -> BlockView {
        BlockView {
            start: if self.start <= self.buddy_start() {
                self.start
            } else {
                self.buddy_start()
            },
            order: self.order + 1,
        }
    }
}

/// The buddy of an aligned block lies directly above it when the block is the
/// lower half of its parent, directly below it when it is the upper half, and
/// is aligned like the block itself.
pub proof fn lemma_buddy(b: BlockView)
    requires
        b.order < MAX_ORDER,
        b.aligned(),
    ensures
        b.start as nat % block_size(b.order + 1) == 0 ==> b.buddy_start() == b.start + b.size(),
        b.start as nat % block_size(b.order + 1) != 0 ==> b.buddy_start() == b.start - b.size(),
        b.buddy_start() as nat % b.size() == 0,
        b.parent().aligned(),
        b.parent().contains(b),
        b.parent().end() == b.parent().start + 2 * b.size(),
        (BlockView { start: b.buddy_start(), order: b.order }).buddy_start() == b.start,
{
    let k = b.order as u64;
    let s = 4096u64 << k;
    let a = b.start;
    let y = b.buddy_start();
    lemma_block_size(b.order);
    lemma_block_size_bits(a, b.order);
    lemma_block_size_bits(a, b.order + 1);
    lemma_block_size_bits(y, b.order);
    lemma_block_size_bits(y, b.order + 1);
    lemma_aligned_bits(a, k);
    lemma_aligned_bits(y, k);
    assert((a ^ s) ^ s == a) by (bit_vector);
}

/// Halving a block gives two blocks that can exist, that lie side by side in
/// it, and that are each other's buddy.
pub proof fn lemma_split(b: BlockView)
    requires
        b.wf(),
        b.order > 0,
    ensures
        b.left().wf(),
        b.right().wf(),
        b.right().start == b.left().end(),
        b.right().end() == b.end(),
        b.left().buddy_start() == b.right().start,
        b.right().buddy_start() == b.left().start,
        b.left().parent() == b,
        b.right().parent() == b,
{
    let half = block_size((b.order - 1) as nat);
    lemma_block_size((b.order - 1) as nat);
    let q = b.start as nat / b.size();
    assert(b.start as nat == b.size() * q) by {
        vstd::arithmetic::div_mod::lemma_fundamental_div_mod(b.start as int, b.size() as int);
    }
    assert(b.start as nat == (2 * q) * half) by (nonlinear_arith)
        requires
            b.start as nat == b.size() * q,
            b.size() == 2 * half,
    ;
    assert(b.start as nat + half == (2 * q + 1) * half) by (nonlinear_arith)
        requires
            b.start as nat == (2 * q) * half,
    ;
    vstd::arithmetic::div_mod::lemma_mod_multiples_basic((2 * q) as int, half as int);
    vstd::arithmetic::div_mod::lemma_mod_multiples_basic((2 * q + 1) as int, half as int);
    assert(b.left().aligned());
    assert(b.right().aligned());
    lemma_buddy(b.left());
    lemma_buddy(b.right());
    assert((b.start as nat + half) % b.size() != 0) by {
        vstd::arithmetic::div_mod::lemma_mod_multiples_vanish(q as int, half as int, b.size() as int);
        vstd::arithmetic::div_mod::lemma_small_mod(half, b.size());
        assert((b.size() * q + half) as int == b.size() as int * q as int + half as int) by (nonlinear_arith);
    }
}

/// Two buddies that can exist make up a block that can exist; it starts where
/// the lower one starts and ends where the upper one ends.
pub proof fn lemma_merge(a: BlockView, b: BlockView)
    requires
        a.wf(),
        b.wf(),
        a.order == b.order,
        b.start == a.buddy_start(),
    ensures
        a.parent().wf(),
        a.parent() == b.parent(),
        a.parent().contains(a),
        a.parent().contains(b),
        a.parent().size() == a.size() + b.size(),
        a.start < b.start ==> a.parent().left() == a && a.parent().right() == b,
        b.start < a.start ==> a.parent().left() == b && a.parent().right() == a,
        a.start != b.start,
{
    lemma_block_size(a.order);
    lemma_buddy(a);
    lemma_buddy(b);
    lemma_block_size_values();
    if a.order + 1 > 26 {
        lemma_block_size_increases(27, a.order + 1);
    }
}

/// The first page boundary at or above `addr`.
pub open spec fn page_ceiling(addr: u64) -> nat {
    ((addr as nat + 4095) / 4096) * 4096
}

/// The number of whole pages between the first page boundary at or above
/// `start` and `end`.
pub open spec fn range_pages(start: u64, end: u64) -> nat {
    if page_ceiling(start) < end {
        ((end as nat - page_ceiling(start)) / 4096) as nat
    } else {
        0
    }
}

/// Whether a block of the given order can start at the physical address
/// `phys`: both the address and the address under which the kernel reaches it
/// are multiples of the block's size.
pub open spec fn can_start(phys: u64, order: nat) -> bool {
    phys as nat % block_size(order) == 0 && phys_to_virt(phys) % block_size(order) as int == 0
}

/// The size in bytes of a block of the given order.
pub fn order_size(order: usize) -> (r: u64)
    requires
        order <= MAX_ORDER,
    ensures
        r == block_size(order as nat),
        r >= PAGE_SIZE,
{
    proof {
        lemma_block_size_bits(0, order as nat);
        lemma_block_size(order as nat);
    }
    PAGE_SIZE * (1u64 << order)
}

/// The position of the highest bit set in `n`.
fn floor_log2(n: u64) -> (r: usize)
    requires
        n > 0,
    ensures
        r < 64,
        pow2(r as nat) <= n,
        n < 2 * pow2(r as nat),
{
    let mut r: usize = 0;
    let mut m: u64 = n;
    proof {
        lemma2_to64();
    }
    while m > 1
        invariant
            m >= 1,
            r < 64,
            m * pow2(r as nat) <= n,
            n < (m + 1) * pow2(r as nat),
        decreases m,
    {
        proof {
            let p = pow2(r as nat);
            lemma_pow2_unfold((r + 1) as nat);
            assert((m / 2) * (2 * p) <= m * p) by (nonlinear_arith)
                requires
                    m >= 0,
                    p >= 0,
            ;
            assert((m + 1) * p <= (m / 2 + 1) * (2 * p)) by (nonlinear_arith)
                requires
                    m >= 0,
                    p >= 0,
            ;
            if r + 1 >= 64 {
                lemma_pow2_strictly_increases(63, (r + 1) as nat);
                lemma2_to64_rest();
                assert((m / 2) * pow2((r + 1) as nat) >= pow2((r + 1) as nat)) by (nonlinear_arith)
                    requires
                        m / 2 >= 1,
                ;
            }
        }
        m = m / 2;
        r = r + 1;
    }
    r
}

/// A block of pages: the address under which the kernel reaches its first
/// byte, and its order. It does not start at address zero, its start is a
/// multiple of its size, and all of it lies in one half of the canonical
/// address space.
#[derive(Debug)]
pub struct Block {
    addr: u64,
    order: usize,
}

impl Block {
    #[verifier::type_invariant]
    spec fn inv(self) -> bool {
        self@.wf()
    }

    /// Where the block starts and how large it is.
    pub closed spec fn view(&self) -> BlockView {
        BlockView { start: self.addr, order: self.order as nat }
    }

    /// The block of the given order that starts at the physical address
    /// `addr`, or `None` if no block of that order can start there.
    pub fn new(addr: PhysAddr, order: usize) -> (r: Option<Self>)
        requires
            addr.0 != 0,
            addr.is_mapped(),
            order <= MAX_ORDER,
        ensures
            r is Some <==> can_start(addr.0, order as nat),
            r is Some ==> r->0@ == (BlockView {
                start: phys_to_virt(addr.0) as u64,
                order: order as nat,
            }),
            r is Some ==> r->0@.wf(),
    {
        if addr.as_usize() % order_size(order) != 0 {
            return None;
        }
        Self::from_virt(VirtAddr::from_phys(addr), order)
    }

    /// The block of the given order that starts at `virt`, or `None` if `virt`
    /// is not a multiple of the block's size.
    fn from_virt(virt: VirtAddr, order: usize) -> (r: Option<Self>)
        requires
            virt@ != 0,
            order <= MAX_ORDER,
        ensures
            r is Some <==> virt@ as nat % block_size(order as nat) == 0,
            r is Some ==> r->0@ == (BlockView { start: virt@, order: order as nat }),
            r is Some ==> r->0@.wf(),
    {
        let addr = virt.as_usize();
        if addr % order_size(order) != 0 {
            return None;
        }
        proof {
            lemma_block_size_bits(addr, order as nat);
            lemma_aligned_bits(addr, order as u64);
        }
        Some(Self { addr, order })
    }

    /// The largest block that starts at the first page boundary at or above
    /// `start` and ends at or below `end`, or `None` if not even one page lies
    /// between the two. What is left of the range above the block is not used.
    pub fn from_range(start: PhysAddr, end: PhysAddr) -> (r: Option<Self>)
        requires
            start.0 != 0,
            page_ceiling(start.0) <= u64::MAX,
            range_pages(start.0, end.0) > 0 ==> PhysAddr(page_ceiling(start.0) as u64).is_mapped(),
        ensures
            r is Some <==> range_pages(start.0, end.0) > 0,
            r is Some ==> r->0@.start == phys_to_virt(page_ceiling(start.0) as u64),
            r is Some ==> r->0@.size() <= range_pages(start.0, end.0) * 4096,
            r is Some ==> can_start(page_ceiling(start.0) as u64, r->0@.order),
            r is Some ==> forall|higher: nat|
                r->0@.order < higher && block_size(higher) <= range_pages(start.0, end.0) * 4096
                    ==> !can_start(page_ceiling(start.0) as u64, higher),
            r is Some ==> r->0@.wf(),
    {
        let offset = start.as_usize() % PAGE_SIZE;
        let first = if offset == 0 {
            start
        } else {
            start + (PAGE_SIZE - offset)
        };
        assert(first.0 == page_ceiling(start.0));
        if first.as_usize() >= end.as_usize() {
            return None;
        }
        let size_pages = (end - first) / PAGE_SIZE;
        if size_pages == 0 {
            return None;
        }
        let mut order = floor_log2(size_pages);
        proof {
            lemma_block_size(0);
            if order > MAX_ORDER {
                if order > 52 {
                    lemma_pow2_strictly_increases(52, order as nat);
                }
                lemma2_to64_rest();
            }
            assert(block_size(order as nat) <= size_pages * 4096) by (nonlinear_arith)
                requires
                    block_size(order as nat) == 4096 * pow2(order as nat),
                    pow2(order as nat) <= size_pages,
            ;
            assert forall|higher: nat|
                order < higher && block_size(higher) <= size_pages * 4096 implies !can_start(
                first.0,
                higher,
            ) by {
                lemma_block_size_increases((order + 1) as nat, higher);
                lemma_block_size(order as nat);
            }
        }
        while order > 0 && !Self::starts_at(first, order)
            invariant
                first.0 != 0,
                first.is_mapped(),
                first.0 == page_ceiling(start.0),
                size_pages == range_pages(start.0, end.0),
                size_pages > 0,
                order <= MAX_ORDER,
                block_size(order as nat) <= size_pages * 4096,
                forall|higher: nat|
                    order < higher && block_size(higher) <= size_pages * 4096 ==> !can_start(
                        first.0,
                        higher,
                    ),
            decreases order,
        {
            proof {
                lemma_block_size_increases((order - 1) as nat, order as nat);
            }
            order = order - 1;
        }
        proof {
            // One page can start at every page boundary.
            lemma_block_size(0);
            assert(first.0 % 4096 == 0 && phys_to_virt(first.0) % 4096 == 0);
            assert(can_start(first.0, order as nat));
        }
        Self::new(first, order)
    }

    /// Whether a block of the given order can start at `addr`.
    fn starts_at(addr: PhysAddr, order: usize) -> (r: bool)
        requires
            addr.is_mapped(),
            order <= MAX_ORDER,
        ensures
            r == can_start(addr.0, order as nat),
    {
        let size = order_size(order);
        addr.as_usize() % size == 0 && VirtAddr::from_phys(addr).as_usize() % size == 0
    }

    /// The address under which the kernel reaches the block. Never zero.
    pub fn addr(&self) -> (r: u64)
        ensures
            r == self@.start,
            r != 0,
            self@.wf(),
    {
        proof {
            use_type_invariant(self);
        }
        self.addr
    }

    /// The order of the block.
    pub fn order(&self) -> (r: usize)
        ensures
            r == self@.order,
            self@.wf(),
    {
        proof {
            use_type_invariant(self);
        }
        self.order
    }

    /// The address at which the block's buddy starts.
    pub fn buddy_addr(&self) -> (r: u64)
        ensures
            r == self@.buddy_start(),
            self@.wf(),
    {
        proof {
            use_type_invariant(self);
        }
        self.addr() ^ order_size(self.order)
    }

    /// The block that the two buddies `a` and `b` make up together.
    pub fn merge(a: Block, b: Block) -> (r: Self)
        requires
            a@.order == b@.order,
            a@.buddy_start() == b@.start,
        ensures
            r@ == a@.parent(),
            r@.wf(),
    {
        proof {
            use_type_invariant(&a);
            use_type_invariant(&b);
            lemma_merge(a@, b@);
        }
        let mut a = a;
        let mut b = b;
        if a.addr() < b.addr() {
            a.order += 1;
            a
        } else {
            b.order += 1;
            b
        }
    }

    /// Halves the block: it keeps its lower half, and the upper half is
    /// returned.
    pub fn split(&mut self) -> (r: Self)
        requires
            old(self)@.order > 0,
        ensures
            final(self)@ == old(self)@.left(),
            r@ == old(self)@.right(),
            final(self)@.wf(),
            r@.wf(),
    {
        proof {
            use_type_invariant(&*self);
            lemma_split(self@);
            lemma_block_size_bits(0, (self.order - 1) as nat);
        }
        self.order -= 1;
        let new_size = PAGE_SIZE * (1u64 << self.order);
        let right_block_addr = self.addr() + new_size;
        Block { addr: right_block_addr, order: self.order }
    }
}

} // verus!
