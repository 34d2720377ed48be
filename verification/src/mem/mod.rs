//! Memory management: addresses, paging structures and the page allocator.

use vstd::prelude::*;

pub mod addr;
pub mod block;
pub mod buddy;
pub mod free_list;
pub mod free_space;
pub mod paging;

verus! {

/// Size in bytes of the smallest page.
pub const PAGE_SIZE: u64 = 4096;

} // verus!
