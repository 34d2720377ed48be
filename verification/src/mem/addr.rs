//! Physical and virtual addresses.

use crate::boot::{KERNEL_MEM_LEN, PHEAP_LEN, PHYS_PHEAP, PHYS_RAM_START, VIRT_PHEAP, VIRT_RAM_START};
use vstd::prelude::*;

verus! {

/// Whether `addr` has Sv39 canonical form: it lies in the lowest or in the
/// highest 2^38 bytes of the address space.
pub open spec fn is_canonical(addr: u64) -> bool {
    addr < 0x40_0000_0000 || addr >= 0xffff_ffc0_0000_0000
}

/// Whether the physical address `addr` lies in the region handed to the page
/// allocator.
pub open spec fn in_pheap(addr: u64) -> bool {
    PHYS_PHEAP <= addr < PHYS_PHEAP + PHEAP_LEN
}

/// Whether the physical address `addr` lies in the gigapage of RAM that the
/// kernel maps.
pub open spec fn in_kernel_mem(addr: u64) -> bool {
    PHYS_RAM_START <= addr < PHYS_RAM_START + KERNEL_MEM_LEN
}

/// The virtual address under which the kernel reaches the mapped physical
/// address `addr`: the page-allocator region has a window of its own, the
/// rest of RAM is seen through the high-half window.
pub open spec fn phys_to_virt(addr: u64) -> int {
    if in_pheap(addr) {
        addr - PHYS_PHEAP + VIRT_PHEAP
    } else {
        addr - PHYS_RAM_START + VIRT_RAM_START
    }
}

/// What shifts and masks extract from an address, as quotients and remainders.
pub proof fn lemma_address_fields(a: u64)
    by (bit_vector)
    ensures
        a >> 12 & 0xfff_ffff_ffff == (a / 0x1000) % 0x1000_0000_0000,
        a >> 12 & 0o777 == (a / 0x1000) % 512,
        a >> 21 & 0o777 == (a / 0x20_0000) % 512,
        a >> 30 & 0o777 == (a / 0x4000_0000) % 512,
        a >> 30 & 0x3ff_ffff == (a / 0x4000_0000) % 0x400_0000,
{
}

/// Sign extension from bit 38 leaves exactly the canonical addresses unchanged,
/// and these are the addresses whose bits 63 to 39 all equal bit 38.
pub proof fn lemma_canonical_bits(a: u64)
    by (bit_vector)
    ensures
        is_canonical((((a << 25) as i64) >> 25) as u64),
        (((a << 25) as i64) >> 25) as u64 == a <==> is_canonical(a),
        is_canonical(a) <==> (a >> 38 == 0 || a >> 38 == 0x3ff_ffff),
{
}

/// A canonical address that is moved by an offset and stays in its half of
/// the address space is canonical, and moving it back by the same offset
/// gives the address again.
pub proof fn lemma_offset_round_trip(addr: u64, offset: u64)
    requires
        is_canonical(addr),
    ensures
        addr + offset < 0x40_0000_0000 || (addr >= 0xffff_ffc0_0000_0000 && addr + offset
            <= u64::MAX) ==> is_canonical((addr + offset) as u64) && ((addr + offset) as u64
            - offset) as u64 == addr,
        addr - offset >= 0xffff_ffc0_0000_0000 || (addr < 0x40_0000_0000 && addr - offset >= 0)
            ==> is_canonical((addr - offset) as u64) && ((addr - offset) as u64 + offset) as u64
            == addr,
{
}

/// An address that can be made from a machine word and read back as one.
pub trait Addr: Copy + Eq + Ord {
    /// Whether `addr` is an address of this kind.
    spec fn valid(addr: u64) -> bool;

    /// The address as a word.
    spec fn word(self) -> u64;

    /// The address `addr`, or `None` if `addr` is no address of this kind.
    fn try_new(addr: u64) -> (r: Option<Self>)
        ensures
            r is Some <==> Self::valid(addr),
            r is Some ==> r->0.word() == addr,
    ;

    /// The address as a word.
    fn as_usize(self) -> (r: u64)
        ensures
            r == self.word(),
            Self::valid(r),
    ;

    /// The start of the page that holds an address of this kind is an address
    /// of this kind, for each of the three page sizes.
    proof fn lemma_page_start_valid(addr: u64, size: u64)
        requires
            Self::valid(addr),
            size == 0x1000 || size == 0x20_0000 || size == 0x4000_0000,
        ensures
            Self::valid((addr / size * size) as u64),
    ;
}

/// A virtual address in Sv39 canonical form.
#[derive(Debug, Clone, Copy, PartialEq, Eq, Structural, PartialOrd, Ord)]
pub struct VirtAddr(u64);

/// A physical address. Every word is one.
#[derive(Debug, Clone, Copy, PartialEq, Eq, Structural, PartialOrd, Ord)]
pub struct PhysAddr(pub u64);

impl Addr for VirtAddr {
    open spec fn valid(addr: u64) -> bool {
        is_canonical(addr)
    }

    open spec fn word(self) -> u64 {
        self@
    }

    fn try_new(addr: u64) -> (r: Option<Self>) {
        VirtAddr::try_new(addr)
    }

    fn as_usize(self) -> (r: u64) {
        VirtAddr::as_usize(self)
    }

    proof fn lemma_page_start_valid(addr: u64, size: u64) {
    }
}

impl Addr for PhysAddr {
    open spec fn valid(addr: u64) -> bool {
        true
    }

    open spec fn word(self) -> u64 {
        self.0
    }

    fn try_new(addr: u64) -> (r: Option<Self>) {
        Some(Self(addr))
    }

    fn as_usize(self) -> (r: u64) {
        self.0
    }

    proof fn lemma_page_start_valid(addr: u64, size: u64) {
    }
}

impl PhysAddr {
    /// Whether the kernel maps this address.
    pub open spec fn is_mapped(self) -> bool {
        in_kernel_mem(self.0)
    }

    /// The address as a word.
    pub fn as_usize(self) -> (r: u64)
        ensures
            r == self.0,
    {
        self.0
    }

    /// The physical page number: the 44 bits from bit 12 up.
    pub fn ppn(self) -> (r: u64)
        ensures
            r == (self.0 / 0x1000) % 0x1000_0000_0000,
    {
        let a: u64 = self.0;
        proof {
            lemma_address_fields(a);
        }
        a >> 12 & 0xfff_ffff_ffff
    }

    /// The lowest level's nine bits of the page number: bits 12 to 20.
    pub fn ppn0(self) -> (r: usize)
        ensures
            r == (self.0 / 0x1000) % 512,
    {
        let a: u64 = self.0;
        proof {
            lemma_address_fields(a);
        }
        (a >> 12 & 0o777) as usize
    }

    /// The middle level's nine bits of the page number: bits 21 to 29.
    pub fn ppn1(self) -> (r: usize)
        ensures
            r == (self.0 / 0x20_0000) % 512,
    {
        let a: u64 = self.0;
        proof {
            lemma_address_fields(a);
        }
        (a >> 21 & 0o777) as usize
    }

    /// The top level's 26 bits of the page number: bits 30 to 55.
    pub fn ppn2(self) -> (r: usize)
        ensures
            r == (self.0 / 0x4000_0000) % 0x400_0000,
    {
        let a: u64 = self.0;
        proof {
            lemma_address_fields(a);
        }
        (a >> 30 & 0x3ff_ffff) as usize
    }
}

impl From<PhysAddr> for u64 {
    fn from(value: PhysAddr) -> (r: u64) {
        value.as_usize()
    }
}

impl vstd::std_specs::convert::FromSpecImpl<PhysAddr> for u64 {
    open spec fn obeys_from_spec() -> bool {
        true
    }

    open spec fn from_spec(value: PhysAddr) -> u64 {
        value.0
    }
}

impl core::ops::Add<u64> for PhysAddr {
    type Output = Self;

    fn add(self, rhs: u64) -> (r: Self) {
        Self(self.as_usize() + rhs)
    }
}

impl vstd::std_specs::ops::AddSpecImpl<u64> for PhysAddr {
    open spec fn obeys_add_spec() -> bool {
        true
    }

    open spec fn add_req(self, rhs: u64) -> bool {
        self.0 + rhs <= u64::MAX
    }

    open spec fn add_spec(self, rhs: u64) -> Self {
        PhysAddr((self.0 + rhs) as u64)
    }
}

impl core::ops::Sub<u64> for PhysAddr {
    type Output = Self;

    fn sub(self, rhs: u64) -> (r: Self) {
        Self(self.as_usize() - rhs)
    }
}

impl vstd::std_specs::ops::SubSpecImpl<u64> for PhysAddr {
    open spec fn obeys_sub_spec() -> bool {
        true
    }

    open spec fn sub_req(self, rhs: u64) -> bool {
        rhs <= self.0
    }

    open spec fn sub_spec(self, rhs: u64) -> Self {
        PhysAddr((self.0 - rhs) as u64)
    }
}

impl core::ops::Sub for PhysAddr {
    type Output = u64;

    fn sub(self, rhs: Self) -> (r: u64) {
        self.as_usize() - rhs.as_usize()
    }
}

impl vstd::std_specs::ops::SubSpecImpl for PhysAddr {
    open spec fn obeys_sub_spec() -> bool {
        true
    }

    open spec fn sub_req(self, rhs: Self) -> bool {
        rhs.0 <= self.0
    }

    open spec fn sub_spec(self, rhs: Self) -> u64 {
        (self.0 - rhs.0) as u64
    }
}

impl VirtAddr {
    #[verifier::type_invariant]
    spec fn canonical(self) -> bool {
        is_canonical(self.0)
    }

    /// The address as a word.
    pub closed spec fn view(self) -> u64 {
        self.0
    }

    /// Copies bit 38 of `addr` into every bit above it.
    fn new_truncate(addr: u64) -> (r: Self)
        ensures
            r@ == (((addr << 25) as i64) >> 25) as u64,
    {
        proof {
            lemma_canonical_bits(addr);
        }
        Self((((addr << 25) as i64) >> 25) as u64)
    }

    /// The address `addr`, or `None` if `addr` is not canonical.
    pub fn try_new(addr: u64) -> (r: Option<Self>)
        ensures
            r is Some <==> is_canonical(addr),
            r is Some ==> r->0@ == addr,
    {
        proof {
            lemma_canonical_bits(addr);
        }
        if Self::new_truncate(addr).0 == addr {
            Some(Self(addr))
        } else {
            None
        }
    }

    /// The address `addr`, which must be canonical.
    pub fn new(addr: u64) -> (r: Self)
        requires
            is_canonical(addr),
        ensures
            r@ == addr,
    {
        Self(addr)
    }

    /// The virtual address under which the kernel reaches `phys`.
    pub fn from_phys(phys: PhysAddr) -> (r: Self)
        requires
            phys.is_mapped(),
        ensures
            r@ == phys_to_virt(phys.0),
    {
        if PHYS_PHEAP <= phys.as_usize() && phys.as_usize() < PHYS_PHEAP + PHEAP_LEN {
            Self::new((phys - PhysAddr(PHYS_PHEAP)) + VIRT_PHEAP)
        } else {
            Self::new((phys - PhysAddr(PHYS_RAM_START)) + VIRT_RAM_START)
        }
    }

    /// The address as a word.
    pub fn as_usize(self) -> (r: u64)
        ensures
            r == self@,
            is_canonical(r),
    {
        proof {
            use_type_invariant(&self);
        }
        self.0
    }

    /// The index into a level-0 table: bits 12 to 20.
    pub fn vpn0(self) -> (r: usize)
        ensures
            r == (self@ / 0x1000) % 512,
    {
        let a: u64 = self.0;
        proof {
            lemma_address_fields(a);
        }
        (a >> 12 & 0o777) as usize
    }

    /// The index into a level-1 table: bits 21 to 29.
    pub fn vpn1(self) -> (r: usize)
        ensures
            r == (self@ / 0x20_0000) % 512,
    {
        let a: u64 = self.0;
        proof {
            lemma_address_fields(a);
        }
        (a >> 21 & 0o777) as usize
    }

    /// The index into the root table: bits 30 to 38.
    pub fn vpn2(self) -> (r: usize)
        ensures
            r == (self@ / 0x4000_0000) % 512,
    {
        let a: u64 = self.0;
        proof {
            lemma_address_fields(a);
        }
        (a >> 30 & 0o777) as usize
    }
}

impl From<VirtAddr> for u64 {
    fn from(value: VirtAddr) -> (r: u64) {
        value.0
    }
}

impl vstd::std_specs::convert::FromSpecImpl<VirtAddr> for u64 {
    open spec fn obeys_from_spec() -> bool {
        true
    }

    open spec fn from_spec(value: VirtAddr) -> u64 {
        value@
    }
}

} // verus!
