//! Page tables.

use super::entry::Entry;
use crate::mem::paging::{Page, PageType, PhysPage};
use core::marker::PhantomData;
use vstd::prelude::*;

verus! {

/// The number of entries in a table.
pub const ENTRY_COUNT: usize = 512;

/// The entries of a table, as they lie in memory.
pub struct RawTable(pub [Entry; ENTRY_COUNT]);

/// A level of the three-level table tree.
pub trait Level {
    /// The type of page that an entry of a table of this level maps.
    const PAGE_TYPE: PageType;
}

/// A level whose tables can point to tables of the level below.
pub trait Superlevel: Level {
    /// The level below.
    type Sublevel: Level;
}

/// The level of the root table.
pub struct Level2;

/// The level between the root and the leaves.
pub struct Level1;

/// The level of the leaf tables.
pub struct Level0;

impl Level for Level2 {
    const PAGE_TYPE: PageType = PageType::Giga;
}

impl Superlevel for Level2 {
    type Sublevel = Level1;
}

impl Level for Level1 {
    const PAGE_TYPE: PageType = PageType::Mega;
}

impl Superlevel for Level1 {
    type Sublevel = Level0;
}

impl Level for Level0 {
    const PAGE_TYPE: PageType = PageType::Base;
}

/// A table of a given level.
pub struct Table<L: Level> {
    inner: RawTable,
    _phantom: PhantomData<L>,
}

/// A root table.
pub type P2Table = Table<Level2>;

/// A table between the root and the leaves.
pub type P1Table = Table<Level1>;

/// A leaf table.
pub type P0Table = Table<Level0>;

/// What an entry of a table above the leaf level leads to.
pub enum TableEntry<'a, L: Superlevel> {
    /// A page of the table's page type.
    Page(PhysPage),
    /// A table of the level below.
    Table(&'a Table<L::Sublevel>),
}

/// What an entry of a table above the leaf level leads to, where the table
/// below may be changed.
pub enum TableEntryMut<'a, L: Superlevel> {
    /// A page of the table's page type.
    Page(PhysPage),
    /// A table of the level below.
    Table(&'a mut Table<L::Sublevel>),
}

impl<L: Superlevel> Table<L> {
    /// What the entry at `index` leads to, if there is such an entry and it
    /// is in use. An entry in use must map a page: nothing here can follow an
    /// entry to the table it points to.
    pub fn next(&self, index: usize) -> (r: Option<TableEntry<'_, L>>)
        requires
            index < ENTRY_COUNT && self@[index as int].spec_valid() ==> self@[index as int].spec_is_leaf()
                && self@[index as int].spec_ppn() * L::PAGE_TYPE.spec_size() <= u64::MAX,
        ensures
            r is Some <==> index < ENTRY_COUNT && self@[index as int].spec_valid(),
            r is Some ==> r->0 is Page && r->0->Page_0.spec_index() == self@[index as int].spec_ppn()
                && r->0->Page_0.spec_ty() == L::PAGE_TYPE,
    {
        match self.get(index) {
            Some(entry) => Some(TableEntry::Page(PhysPage::new(entry.ppn(), L::PAGE_TYPE))),
            None => None,
        }
    }

    /// What the entry at `index` leads to, if there is such an entry and it
    /// is in use; as [`Table::next`], for a caller that means to change the
    /// table below.
    pub fn next_mut(&self, index: usize) -> (r: Option<TableEntryMut<'_, L>>)
        requires
            index < ENTRY_COUNT && self@[index as int].spec_valid() ==> self@[index as int].spec_is_leaf()
                && self@[index as int].spec_ppn() * L::PAGE_TYPE.spec_size() <= u64::MAX,
        ensures
            r is Some <==> index < ENTRY_COUNT && self@[index as int].spec_valid(),
            r is Some ==> r->0 is Page && r->0->Page_0.spec_index() == self@[index as int].spec_ppn()
                && r->0->Page_0.spec_ty() == L::PAGE_TYPE,
    {
        match self.get(index) {
            Some(entry) => Some(TableEntryMut::Page(PhysPage::new(entry.ppn(), L::PAGE_TYPE))),
            None => None,
        }
    }
}

impl<L: Level> Table<L> {
    /// The entries of the table.
    pub closed spec fn view(&self) -> Seq<Entry> {
        self.inner.0@
    }

    /// The table with the given entries.
    pub fn new(inner: RawTable) -> (r: Self)
        ensures
            r@ == inner.0@,
    {
        Table { inner, _phantom: PhantomData }
    }

    /// The entry at `index`, if there is one and it is in use.
    fn get(&self, index: usize) -> (r: Option<&Entry>)
        ensures
            r is Some <==> index < ENTRY_COUNT && self@[index as int].spec_valid(),
            r is Some ==> *r->0 == self@[index as int],
    {
        if index < ENTRY_COUNT && self.inner.0[index].valid() {
            Some(&self.inner.0[index])
        } else {
            None
        }
    }

    /// The page that the entry at `index` maps, if there is such an entry, it
    /// is in use, and it maps a page.
    pub fn get_page(&self, index: usize) -> (r: Option<PhysPage>)
        requires
            index < ENTRY_COUNT && self@[index as int].spec_valid() && self@[index as int].spec_is_leaf()
                ==> self@[index as int].spec_ppn() * L::PAGE_TYPE.spec_size() <= u64::MAX,
        ensures
            r is Some <==> index < ENTRY_COUNT && self@[index as int].spec_valid()
                && self@[index as int].spec_is_leaf(),
            r is Some ==> r->0.spec_index() == self@[index as int].spec_ppn() && r->0.spec_ty()
                == L::PAGE_TYPE,
    {
        match self.get(index) {
            Some(entry) => if entry.is_leaf() {
                Some(PhysPage::new(entry.ppn(), L::PAGE_TYPE))
            } else {
                None
            },
            None => None,
        }
    }
}

} // verus!
