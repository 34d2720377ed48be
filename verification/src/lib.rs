//! The core of a small Sv39 kernel for 64-bit RISC-V: typed addresses,
//! page-table entries and tables, the memory layout the boot stage installs,
//! a buddy allocator for page frames, and the values exchanged with the
//! supervisor binary interface.
//!
//! Every address and every page-table word is 64 bits wide, whatever the width
//! of `usize` on the machine that builds the crate.

pub mod boot;
pub mod io;
pub mod mem;
pub mod sbi;
