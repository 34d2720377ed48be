//! The firmware console.

use crate::sbi::{SbiCall, CONSOLE_PUTCHAR_EID};
use vstd::prelude::*;

verus! {

/// The firmware console, a sink for characters.
pub struct Serial(());

impl Serial {
    /// The console.
    pub fn new() -> Self {
        Serial(())
    }

    /// The call that writes `c` to the console: the character is the first
    /// argument.
    pub fn write_char_call(&self, c: char) -> (r: SbiCall)
        ensures
            r@ == seq![c as usize, 0, 0, 0, 0, 0, 0, CONSOLE_PUTCHAR_EID],
    {
        let mut call = SbiCall::new();
        call.with_arg0(c as usize).with_eid(CONSOLE_PUTCHAR_EID);
        assert(call@ =~= seq![c as usize, 0, 0, 0, 0, 0, 0, CONSOLE_PUTCHAR_EID]);
        call
    }
}

} // verus!
