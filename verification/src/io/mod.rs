//! Input and output.

pub mod serial;
