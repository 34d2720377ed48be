//! Page-table entries: a physical page number above ten flag bits.

use vstd::prelude::*;

verus! {

/// The bits of an entry that hold its flags: the low ten.
pub const FLAG_BITS: u64 = 0b1111111111;

/// The bits of an entry above its flags.
pub const PPN_BITS: u64 = !FLAG_BITS;

/// The bits of a physical page number: the low 44.
pub const PPN_MASK: u64 = 0xfff_ffff_ffff;

/// A set of entry flags, one bit for each flag.
#[derive(Debug, Clone, Copy, PartialEq, Eq, Structural)]
pub struct EntryFlags(u64);

impl EntryFlags {
    /// The entry is in use.
    pub const VALID: u64 = 0b0000000001;

    /// The page can be read.
    pub const READ: u64 = 0b0000000010;

    /// The page can be written.
    pub const WRITE: u64 = 0b0000000100;

    /// Instructions can be fetched from the page.
    pub const EXECUTE: u64 = 0b0000001000;

    /// The page is open to user mode.
    pub const USER: u64 = 0b0000010000;

    /// The mapping exists in every address space.
    pub const GLOBAL: u64 = 0b0000100000;

    /// The page has been read, written or fetched from.
    pub const ACCESSED: u64 = 0b0001000000;

    /// The page has been written.
    pub const DIRTY: u64 = 0b0010000000;

    /// Free for the kernel's use.
    pub const SOFTWARE0: u64 = 0b0100000000;

    /// Free for the kernel's use.
    pub const SOFTWARE1: u64 = 0b1000000000;

    /// The bits of the set.
    pub closed spec fn view(self) -> u64 {
        self.0
    }

    /// The set with exactly the given bits.
    pub closed spec fn from_bits_spec(bits: u64) -> EntryFlags {
        EntryFlags(bits)
    }

    /// The set with exactly the given bits, also those that stand for no flag.
    pub fn from_bits_retain(bits: u64) -> (r: EntryFlags)
        ensures
            r == Self::from_bits_spec(bits),
            r@ == bits,
    {
        EntryFlags(bits)
    }

    /// The bits of the set.
    pub fn bits(&self) -> (r: u64)
        ensures
            r == self@,
    {
        self.0
    }

    /// The flags that are in either set.
    pub fn union(self, other: EntryFlags) -> (r: EntryFlags)
        ensures
            r@ == self@ | other@,
    {
        EntryFlags(self.0 | other.0)
    }

    /// Whether every flag of `other` is in this set.
    pub fn contains(&self, other: EntryFlags) -> (r: bool)
        ensures
            r == (self@ & other@ == other@),
    {
        self.0 & other.0 == other.0
    }

    /// Whether some flag of `other` is in this set.
    pub fn intersects(&self, other: EntryFlags) -> (r: bool)
        ensures
            r == (self@ & other@ != 0),
    {
        self.0 & other.0 != 0
    }
}

/// A page-table entry: the flags in bits 0 to 9, the physical page number in
/// bits 10 to 53.
#[derive(Debug, Clone, Copy, PartialEq, Eq, Structural)]
pub struct Entry(u64);

impl Entry {
    /// The entry as a word.
    pub closed spec fn view(self) -> u64 {
        self.0
    }

    /// The flags of the entry: its low ten bits.
    pub open spec fn spec_flags(self) -> u64 {
        self@ & FLAG_BITS
    }

    /// The physical page number of the entry: the 44 bits from bit 10 up.
    pub open spec fn spec_ppn(self) -> u64 {
        (self@ >> 10) & PPN_MASK
    }

    /// Whether the entry maps a page: it can be read, written or fetched from.
    pub open spec fn spec_is_leaf(self) -> bool {
        self@ & (EntryFlags::READ | EntryFlags::WRITE | EntryFlags::EXECUTE) != 0
    }

    /// Whether the entry is in use.
    pub open spec fn spec_valid(self) -> bool {
        self@ & EntryFlags::VALID == EntryFlags::VALID
    }

    /// Whether the entry is one the hardware accepts as far as its flags go:
    /// an entry that maps no page has neither ACCESSED nor DIRTY.
    pub open spec fn flags_consistent(self) -> bool {
        self.spec_is_leaf() || self@ & (EntryFlags::ACCESSED | EntryFlags::DIRTY) == 0
    }

    /// The entry with its flag bits replaced by the bits of `flags`.
    pub closed spec fn spec_with_flags(self, flags: EntryFlags) -> Entry {
        Entry(self.0 & !FLAG_BITS | flags@)
    }

    /// The entry with the bits above its flags replaced by `ppn`.
    pub closed spec fn spec_with_ppn(self, ppn: u64) -> Entry {
        Entry(self.0 & !PPN_BITS | (ppn << 10 & PPN_BITS))
    }

    /// The entry with no flag and page number zero.
    pub closed spec fn new_spec() -> Entry {
        Entry(0)
    }

    /// The entry with no flag and page number zero.
    pub fn new() -> (r: Self)
        ensures
            r == Self::new_spec(),
            r@ == 0,
    {
        Self(0)
    }

    /// The entry as a word.
    pub fn bits(&self) -> (r: u64)
        ensures
            r == self@,
    {
        self.0
    }

    /// The flags of the entry.
    pub fn flags(&self) -> (r: EntryFlags)
        ensures
            r@ == self.spec_flags(),
    {
        EntryFlags::from_bits_retain(self.0 & FLAG_BITS)
    }

    /// The physical page number of the entry.
    pub fn ppn(&self) -> (r: u64)
        ensures
            r == self.spec_ppn(),
    {
        (self.0 >> 10) & PPN_MASK
    }

    /// Whether the entry is in use.
    pub fn valid(&self) -> (r: bool)
        ensures
            r == self.spec_valid(),
    {
        let word: u64 = self.0;
        assert((word & 0b1111111111) & 1 == 1 <==> word & 1 == 1) by (bit_vector);
        self.flags().contains(EntryFlags::from_bits_retain(EntryFlags::VALID))
    }

    /// Whether the entry maps a page rather than pointing to a table.
    pub fn is_leaf(&self) -> (r: bool)
        ensures
            r == self.spec_is_leaf(),
    {
        let leaf_flags = EntryFlags::from_bits_retain(EntryFlags::READ).union(
            EntryFlags::from_bits_retain(EntryFlags::WRITE),
        ).union(EntryFlags::from_bits_retain(EntryFlags::EXECUTE));
        let word: u64 = self.0;
        assert((word & 0b1111111111) & ((2u64 | 4u64) | 8u64) != 0 <==> word & (2u64 | 4u64 | 8u64)
            != 0) by (bit_vector);
        self.flags().intersects(leaf_flags)
    }

    /// The entry with its flag bits replaced by the bits of `flags`.
    pub fn with_flags(self, flags: EntryFlags) -> (r: Self)
        ensures
            r == self.spec_with_flags(flags),
            r@ == self@ & !FLAG_BITS | flags@,
    {
        Self(self.0 & !FLAG_BITS | flags.bits())
    }

    /// The entry with the bits above its flags replaced by `ppn`.
    pub fn with_ppn(self, ppn: u64) -> (r: Self)
        ensures
            r == self.spec_with_ppn(ppn),
            r@ == self@ & !PPN_BITS | (ppn << 10 & PPN_BITS),
    {
        Self(self.0 & !PPN_BITS | (ppn << 10 & PPN_BITS))
    }
}

/// The words of an entry whose flags or page number have been replaced.
pub proof fn lemma_entry_words(entry: Entry, ppn: u64, flags: EntryFlags)
    ensures
        Entry::new_spec()@ == 0,
        EntryFlags::from_bits_spec(flags@) == flags,
        entry.spec_with_flags(flags)@ == entry@ & !FLAG_BITS | flags@,
        entry.spec_with_ppn(ppn)@ == entry@ & !PPN_BITS | (ppn << 10 & PPN_BITS),
{
}

/// A page number below 2^44 and a set of the ten flags that are written into
/// an entry are read back from it.
pub proof fn lemma_entry_round_trip(entry: Entry, ppn: u64, flags: EntryFlags)
    requires
        ppn < 0x1000_0000_0000,
        flags@ <= FLAG_BITS,
    ensures
        entry.spec_with_ppn(ppn).spec_with_flags(flags).spec_ppn() == ppn,
        entry.spec_with_ppn(ppn).spec_with_flags(flags).spec_flags() == flags@,
{
    let e: u64 = entry@;
    let f: u64 = flags@;
    let written: u64 = (e & !PPN_BITS | (ppn << 10 & PPN_BITS)) & !FLAG_BITS | f;
    assert(written == entry.spec_with_ppn(ppn).spec_with_flags(flags)@);
    assert((written >> 10) & 0xfff_ffff_ffffu64 == ppn && written & 0x3ffu64 == f) by (bit_vector)
        requires
            ppn < 0x1000_0000_0000u64,
            f <= 0x3ffu64,
            written == (e & !(!0x3ffu64) | (ppn << 10 & !0x3ffu64)) & !0x3ffu64 | f,
    ;
}

} // verus!
