//! Paging structures: pages, page-table entries and tables.

use crate::mem::addr::{Addr, PhysAddr, VirtAddr};
use core::marker::PhantomData;
use vstd::prelude::*;

pub mod entry;
pub mod table;

verus! {

/// The three sizes of page that a table entry can map.
#[derive(Debug, Clone, Copy, PartialEq, Eq, Structural)]
pub enum PageType {
    /// 4 KiB page
    Base,
    /// 2 MiB page
    Mega,
    /// 1 GiB page
    Giga,
}

impl PageType {
    /// The size in bytes of a page of this type.
    pub open spec fn spec_size(self) -> u64 {
        match self {
            PageType::Base => 0x1000,
            PageType::Mega => 0x20_0000,
            PageType::Giga => 0x4000_0000,
        }
    }

    /// The size in bytes of a page of this type.
    pub fn size(self) -> (r: u64)
        ensures
            r == self.spec_size(),
    {
        match self {
            Self::Base => 0x1000,
            Self::Mega => 0x20_0000,
            Self::Giga => 0x4000_0000,
        }
    }
}

/// The page of a given type with a given index: it starts at the index times
/// the size of the type, and that start is an address of kind `A`.
pub struct Page<A: Addr> {
    index: u64,
    ty: PageType,
    _phantom: PhantomData<A>,
}

/// A page of physical memory.
pub type PhysPage = Page<PhysAddr>;

/// A page of virtual memory.
pub type VirtPage = Page<VirtAddr>;

impl<A: Addr> Page<A> {
    #[verifier::type_invariant]
    spec fn inv(self) -> bool {
        Self::can_be(self.index, self.ty)
    }

    /// Whether there is a page of type `ty` with index `index`: its start
    /// fits in a word and is an address of kind `A`.
    pub open spec fn can_be(index: u64, ty: PageType) -> bool {
        index * ty.spec_size() <= u64::MAX && A::valid((index * ty.spec_size()) as u64)
    }

    /// The index of the page.
    pub closed spec fn spec_index(self) -> u64 {
        self.index
    }

    /// The type of the page.
    pub closed spec fn spec_ty(self) -> PageType {
        self.ty
    }

    /// The address at which the page starts.
    pub open spec fn spec_start(self) -> int {
        self.spec_index() * self.spec_ty().spec_size()
    }

    /// The address one past the end of the page.
    pub open spec fn spec_end(self) -> int {
        (self.spec_index() + 1) * self.spec_ty().spec_size()
    }

    /// The page of type `ty` with index `index`, or `None` if its start is no
    /// address of kind `A`.
    pub fn try_new(index: u64, ty: PageType) -> (r: Option<Self>)
        requires
            index * ty.spec_size() <= u64::MAX,
        ensures
            r is Some <==> Self::can_be(index, ty),
            r is Some ==> r->0.spec_index() == index && r->0.spec_ty() == ty,
    {
        if A::try_new(index * ty.size()).is_some() {
            Some(Self { index, ty, _phantom: PhantomData })
        } else {
            None
        }
    }

    /// The page of type `ty` with index `index`.
    pub fn new(index: u64, ty: PageType) -> (r: Self)
        requires
            Self::can_be(index, ty),
        ensures
            r.spec_index() == index,
            r.spec_ty() == ty,
    {
        Self::try_new(index, ty).unwrap()
    }

    /// The page of type `ty` that holds `addr`.
    pub fn containing_addr(addr: A, ty: PageType) -> (r: Self)
        ensures
            r.spec_index() == addr.word() / ty.spec_size(),
            r.spec_ty() == ty,
            r.spec_start() <= addr.word() < r.spec_end(),
    {
        let word = addr.as_usize();
        let size = ty.size();
        proof {
            A::lemma_page_start_valid(word, size);
            vstd::arithmetic::div_mod::lemma_fundamental_div_mod(word as int, size as int);
            vstd::arithmetic::div_mod::lemma_mod_bound(word as int, size as int);
            assert((word / size) * size == size * (word / size)) by (nonlinear_arith);
            assert((word / size + 1) * size == size * (word / size) + size) by (nonlinear_arith);
        }
        Page { index: word / size, ty, _phantom: PhantomData }
    }

    /// The index of the page.
    pub fn index(&self) -> (r: u64)
        ensures
            r == self.spec_index(),
    {
        self.index
    }

    /// The address at which the page starts.
    pub fn start(&self) -> (r: A)
        ensures
            r.word() == self.spec_start(),
    {
        proof {
            use_type_invariant(self);
        }
        A::try_new(self.index * self.ty.size()).unwrap()
    }

    /// The address one past the end of the page, which must be an address of
    /// kind `A`.
    pub fn end(&self) -> (r: A)
        requires
            self.spec_end() <= u64::MAX,
            A::valid(self.spec_end() as u64),
        ensures
            r.word() == self.spec_end(),
    {
        proof {
            use_type_invariant(self);
            assert(self.index + 1 <= (self.index + 1) * self.ty.spec_size()) by (nonlinear_arith)
                requires
                    self.ty.spec_size() >= 1,
            ;
        }
        A::try_new((self.index + 1) * self.ty.size()).unwrap()
    }
}

} // verus!
