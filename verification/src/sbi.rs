//! The supervisor binary interface: the firmware's services, which the kernel
//! reaches with an environment call.
//!
//! A call carries six arguments in the registers `a0` to `a5`, the function
//! id in `a6` and the extension id in `a7`. The firmware answers with an error
//! code in `a0` and a value in `a1`.

use vstd::prelude::*;

verus! {

/// The error code of a call that succeeded.
pub const SBI_SUCCESS: isize = 0;

/// The extension id of the call that shuts the machine down.
pub const SHUTDOWN_EID: usize = 0x53525354;

/// The extension id of the call that writes a character to the console.
pub const CONSOLE_PUTCHAR_EID: usize = 1;

/// Why a call failed.
#[derive(Debug, Clone, Copy, PartialEq, Eq, Structural)]
pub enum SbiError {
    /// The call failed for a reason that no other code names.
    Failed,
    /// The firmware does not offer the service.
    NotSupported,
    /// An argument was not acceptable.
    InvalidParam,
    /// The caller may not use the service.
    Denied,
    /// An address was not acceptable.
    InvalidAddress,
    /// The resource is available already.
    AlreadyAvailable,
    /// The resource was started already.
    AlreadyStarted,
    /// The resource was stopped already.
    AlreadyStopped,
}

impl SbiError {
    /// The code by which the firmware reports the error.
    pub open spec fn spec_code(self) -> int {
        match self {
            SbiError::Failed => -1,
            SbiError::NotSupported => -2,
            SbiError::InvalidParam => -3,
            SbiError::Denied => -4,
            SbiError::InvalidAddress => -5,
            SbiError::AlreadyAvailable => -6,
            SbiError::AlreadyStarted => -7,
            SbiError::AlreadyStopped => -8,
        }
    }

    /// The code by which the firmware reports the error.
    pub fn code(self) -> (r: isize)
        ensures
            r == self.spec_code(),
    {
        match self {
            SbiError::Failed => -1,
            SbiError::NotSupported => -2,
            SbiError::InvalidParam => -3,
            SbiError::Denied => -4,
            SbiError::InvalidAddress => -5,
            SbiError::AlreadyAvailable => -6,
            SbiError::AlreadyStarted => -7,
            SbiError::AlreadyStopped => -8,
        }
    }

    /// The error that the firmware reports by `code`, or `None` if `code`
    /// reports no error that the interface names.
    pub fn from_code(code: isize) -> (r: Option<SbiError>)
        ensures
            r is Some <==> -8 <= code <= -1,
            r is Some ==> r->0.spec_code() == code,
    {
        if code == -1 {
            Some(SbiError::Failed)
        } else if code == -2 {
            Some(SbiError::NotSupported)
        } else if code == -3 {
            Some(SbiError::InvalidParam)
        } else if code == -4 {
            Some(SbiError::Denied)
        } else if code == -5 {
            Some(SbiError::InvalidAddress)
        } else if code == -6 {
            Some(SbiError::AlreadyAvailable)
        } else if code == -7 {
            Some(SbiError::AlreadyStarted)
        } else if code == -8 {
            Some(SbiError::AlreadyStopped)
        } else {
            None
        }
    }
}

/// The firmware's answer to a call. Its error code is [`SBI_SUCCESS`] or the
/// code of an [`SbiError`].
#[must_use]
#[derive(Debug, Clone, Copy)]
pub struct SbiRet {
    error: isize,
    value: usize,
}

impl SbiRet {
    #[verifier::type_invariant]
    spec fn inv(self) -> bool {
        -8 <= self.error <= 0
    }

    /// The error code of the answer.
    pub closed spec fn spec_code(self) -> int {
        self.error as int
    }

    /// The value of the answer. It means something only where the call
    /// succeeded.
    pub closed spec fn spec_value(self) -> usize {
        self.value
    }

    /// The answer that the firmware gave in the registers `a0` and `a1`, or
    /// `None` if `error` is neither [`SBI_SUCCESS`] nor the code of an
    /// [`SbiError`].
    pub fn new(error: isize, value: usize) -> (r: Option<Self>)
        ensures
            r is Some <==> -8 <= error <= 0,
            r is Some ==> r->0.spec_code() == error && r->0.spec_value() == value,
    {
        if -8 <= error && error <= 0 {
            Some(SbiRet { error, value })
        } else {
            None
        }
    }

    /// Whether the call succeeded.
    pub fn is_success(&self) -> (r: bool)
        ensures
            r == (self.spec_code() == SBI_SUCCESS),
    {
        self.error == SBI_SUCCESS
    }

    /// Why the call failed, or `None` if it succeeded.
    pub fn error(&self) -> (r: Option<SbiError>)
        ensures
            r is None <==> self.spec_code() == SBI_SUCCESS,
            r is Some ==> r->0.spec_code() == self.spec_code(),
    {
        proof {
            use_type_invariant(self);
        }
        if self.error != SBI_SUCCESS {
            SbiError::from_code(self.error)
        } else {
            None
        }
    }

    /// The value that the call gave, or `None` if it failed.
    pub fn value(&self) -> (r: Option<usize>)
        ensures
            r is Some <==> self.spec_code() == SBI_SUCCESS,
            r is Some ==> r->0 == self.spec_value(),
    {
        if self.error == SBI_SUCCESS {
            Some(self.value)
        } else {
            None
        }
    }
}

/// A call to the firmware that is being put together.
#[derive(Debug, Clone, PartialEq, Eq, Structural)]
pub struct SbiCall {
    arg0: usize,
    arg1: usize,
    arg2: usize,
    arg3: usize,
    arg4: usize,
    arg5: usize,
    fid: usize,
    eid: usize,
}

impl Default for SbiCall {
    fn default() -> (r: Self)
        ensures
            r@ == Seq::new(8, |i: int| 0usize),
    {
        Self::new()
    }
}

impl SbiCall {
    /// What the call puts into the registers `a0` to `a7`: the six arguments,
    /// the function id and the extension id.
    pub closed spec fn view(&self) -> Seq<usize> {
        seq![
            self.arg0,
            self.arg1,
            self.arg2,
            self.arg3,
            self.arg4,
            self.arg5,
            self.fid,
            self.eid,
        ]
    }

    /// The call with every argument and both ids zero.
    pub fn new() -> (r: Self)
        ensures
            r@ == Seq::new(8, |i: int| 0usize),
    {
        let r = Self { arg0: 0, arg1: 0, arg2: 0, arg3: 0, arg4: 0, arg5: 0, fid: 0, eid: 0 };
        assert(r@ =~= Seq::new(8, |i: int| 0usize));
        r
    }

    /// What the call puts into the registers `a0` to `a7`.
    pub fn registers(&self) -> (r: [usize; 8])
        ensures
            r@ == self@,
    {
        let r = [
            self.arg0,
            self.arg1,
            self.arg2,
            self.arg3,
            self.arg4,
            self.arg5,
            self.fid,
            self.eid,
        ];
        assert(r@ =~= self@);
        r
    }

    /// Sets the first argument.
    pub fn with_arg0(&mut self, value: usize) -> (r: &mut Self)
        ensures
            r@ == old(self)@.update(0, value),
            *final(self) == *final(r),
    {
        self.arg0 = value;
        assert(self@ =~= old(self)@.update(0, value));
        self
    }

    /// Sets the second argument.
    pub fn with_arg1(&mut self, value: usize) -> (r: &mut Self)
        ensures
            r@ == old(self)@.update(1, value),
            *final(self) == *final(r),
    {
        self.arg1 = value;
        assert(self@ =~= old(self)@.update(1, value));
        self
    }

    /// Sets the third argument.
    pub fn with_arg2(&mut self, value: usize) -> (r: &mut Self)
        ensures
            r@ == old(self)@.update(2, value),
            *final(self) == *final(r),
    {
        self.arg2 = value;
        assert(self@ =~= old(self)@.update(2, value));
        self
    }

    /// Sets the fourth argument.
    pub fn with_arg3(&mut self, value: usize) -> (r: &mut Self)
        ensures
            r@ == old(self)@.update(3, value),
            *final(self) == *final(r),
    {
        self.arg3 = value;
        assert(self@ =~= old(self)@.update(3, value));
        self
    }

    /// Sets the fifth argument.
    pub fn with_arg4(&mut self, value: usize) -> (r: &mut Self)
        ensures
            r@ == old(self)@.update(4, value),
            *final(self) == *final(r),
    {
        self.arg4 = value;
        assert(self@ =~= old(self)@.update(4, value));
        self
    }

    /// Sets the sixth argument.
    pub fn with_arg5(&mut self, value: usize) -> (r: &mut Self)
        ensures
            r@ == old(self)@.update(5, value),
            *final(self) == *final(r),
    {
        self.arg5 = value;
        assert(self@ =~= old(self)@.update(5, value));
        self
    }

    /// Sets the function id.
    pub fn with_fid(&mut self, value: usize) -> (r: &mut Self)
        ensures
            r@ == old(self)@.update(6, value),
            *final(self) == *final(r),
    {
        self.fid = value;
        assert(self@ =~= old(self)@.update(6, value));
        self
    }

    /// Sets the extension id.
    pub fn with_eid(&mut self, value: usize) -> (r: &mut Self)
        ensures
            r@ == old(self)@.update(7, value),
            *final(self) == *final(r),
    {
        self.eid = value;
        assert(self@ =~= old(self)@.update(7, value));
        self
    }
}

/// The call that shuts the machine down.
pub fn shutdown_call() -> (r: SbiCall)
    ensures
        r@ == seq![0usize, 0, 0, 0, 0, 0, 0, SHUTDOWN_EID],
{
    let mut call = SbiCall::default();
    call.with_eid(SHUTDOWN_EID);
    assert(call@ =~= seq![0usize, 0, 0, 0, 0, 0, 0, SHUTDOWN_EID]);
    call
}

} // verus!
