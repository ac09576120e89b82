//! Selectors of the global descriptor table.
//!
//! Trap frames, `syscall`/`sysret` and the debugger rely on this arrangement: a
//! `sysret` base of [`KGDT64_R3_CMCODE`] yields [`KGDT64_R3_DATA`] and
//! [`KGDT64_R3_CODE`].
use vstd::prelude::*;

verus! {

/// Null descriptor.
pub const KGDT64_NULL: u16 = 0x00;

/// Kernel-mode 64-bit code.
pub const KGDT64_R0_CODE: u16 = 0x10;

/// Kernel-mode data.
pub const KGDT64_R0_DATA: u16 = 0x18;

/// User-mode 32-bit code.
pub const KGDT64_R3_CMCODE: u16 = 0x20;

/// User-mode data.
pub const KGDT64_R3_DATA: u16 = 0x28;

/// User-mode 64-bit code.
pub const KGDT64_R3_CODE: u16 = 0x30;

/// The task state segment, a descriptor of two slots.
pub const KGDT64_SYS_TSS: u16 = 0x40;

/// Requested privilege level of a loaded user selector.
pub const RPL_USER: u16 = 3;

/// User code as loaded.
pub const USER_CS: u64 = 0x33;

/// User data as loaded.
pub const USER_SS: u64 = 0x2B;

/// The selectors stand where `syscall` and `sysret` look for them.
pub proof fn selectors_fit_the_fast_call_instructions()
    ensures
        KGDT64_R0_DATA == KGDT64_R0_CODE + 8,
        KGDT64_R3_DATA == KGDT64_R3_CMCODE + 8,
        KGDT64_R3_CODE == KGDT64_R3_CMCODE + 16,
        USER_CS == KGDT64_R3_CODE + RPL_USER,
        USER_SS == KGDT64_R3_DATA + RPL_USER,
{
}

} // verus!
