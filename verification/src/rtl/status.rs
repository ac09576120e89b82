//! `NTSTATUS`, the kernel-wide result type.
//!
//! A 32-bit value whose top two bits are the severity: 00 success, 01
//! informational, 10 warning, 11 error. The associated constants are the raw
//! codes, with their documented Windows values.
use vstd::prelude::*;
use vstd::std_specs::convert::FromSpecImpl;

verus! {

/// 32-bit NT status code.
#[derive(Clone, Copy, PartialEq, Eq, Hash, Debug, Structural)]
pub struct NtStatus(pub u32);

impl NtStatus {
    pub const SUCCESS: u32 = 0x0000_0000;

    /// Wait satisfied by object 0.
    pub const WAIT_0: u32 = 0x0000_0000;

    /// A wait timed out before the object was signaled.
    pub const TIMEOUT: u32 = 0x0000_0102;

    /// Operation queued and will complete later.
    pub const PENDING: u32 = 0x0000_0103;

    pub const UNSUCCESSFUL: u32 = 0xC000_0001;

    pub const NOT_IMPLEMENTED: u32 = 0xC000_0002;

    pub const INVALID_HANDLE: u32 = 0xC000_0008;

    pub const INVALID_PARAMETER: u32 = 0xC000_000D;

    pub const NO_SUCH_DEVICE: u32 = 0xC000_000E;

    pub const ACCESS_VIOLATION: u32 = 0xC000_0005;

    /// A buffer was not aligned as the operation requires.
    pub const DATATYPE_MISALIGNMENT: u32 = 0x8000_0002;

    pub const ACCESS_DENIED: u32 = 0xC000_0022;

    pub const BUFFER_TOO_SMALL: u32 = 0xC000_0023;

    pub const OBJECT_TYPE_MISMATCH: u32 = 0xC000_0024;

    pub const OBJECT_NAME_NOT_FOUND: u32 = 0xC000_0034;

    pub const OBJECT_NAME_COLLISION: u32 = 0xC000_0035;

    pub const INSUFFICIENT_RESOURCES: u32 = 0xC000_009A;

    pub const DEVICE_NOT_READY: u32 = 0xC000_00A3;

    pub const INVALID_DEVICE_REQUEST: u32 = 0xC000_0010;

    /// `STATUS_INVALID_IMAGE_FORMAT`.
    pub const INVALID_IMAGE_FORMAT: u32 = 0xC000_0193;

    /// `STATUS_PROCEDURE_NOT_FOUND`.
    pub const PROCEDURE_NOT_FOUND: u32 = 0xC000_007A;

    /// The severity field: the top two bits.
    pub open spec fn severity(self) -> int {
        self.0 as int / 0x4000_0000
    }

    /// `NT_SUCCESS()`: success or informational severity.
    pub fn is_success(self) -> (r: bool)
        ensures
            r == (self.severity() <= 1),
    {
        self.0 < 0x8000_0000
    }

    /// `NT_ERROR()`: severity 11.
    pub fn is_error(self) -> (r: bool)
        ensures
            r == (self.severity() == 3),
    {
        self.0 >= 0xC000_0000
    }
}

/// Kernel-internal routines return `Result`; API boundaries convert.
impl From<Result<(), NtStatus>> for NtStatus {
    fn from(r: Result<(), NtStatus>) -> (s: Self) {
        match r {
            Ok(()) => NtStatus(NtStatus::SUCCESS),
            Err(s) => s,
        }
    }
}

impl FromSpecImpl<Result<(), NtStatus>> for NtStatus {
    open spec fn obeys_from_spec() -> bool {
        true
    }

    open spec fn from_spec(r: Result<(), NtStatus>) -> Self {
        match r {
            Ok(()) => NtStatus(NtStatus::SUCCESS),
            Err(s) => s,
        }
    }
}

/// A status is never both a success and an error.
pub proof fn success_and_error_exclude(s: NtStatus)
    ensures
        !(s.severity() <= 1 && s.severity() == 3),
        0 <= s.severity() <= 3,
{
}

/// The severity of a status is in its top two bits: success, information, warning, error.
pub proof fn severity_is_in_the_top_bits(s: NtStatus)
    ensures
        0 <= s.severity() <= 3,
        s.severity() * 0x4000_0000 <= s.0 < (s.severity() + 1) * 0x4000_0000,
{
}

} // verus!
