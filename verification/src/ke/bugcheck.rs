//! The controlled crash.
//!
//! On an inconsistency it cannot recover from, the kernel masks interrupts,
//! raises to the highest level, prints a banner with the stop code and its four
//! parameters and halts. The routines here decide what is to be done; the caller
//! prints and halts.
use crate::ke::irql::{
    disable_interrupts, interrupts_on, ke_raise_irql, Processor, HIGH_LEVEL, RFLAGS_IF,
};
use vstd::prelude::*;

verus! {

pub const IRQL_NOT_LESS_OR_EQUAL: u32 = 0x0000000A;

pub const KMODE_EXCEPTION_NOT_HANDLED: u32 = 0x0000001E;

pub const PFN_LIST_CORRUPT: u32 = 0x0000004E;

pub const PAGE_FAULT_IN_NONPAGED_AREA: u32 = 0x00000050;

pub const MANUALLY_INITIATED_CRASH: u32 = 0x000000E2;

pub const CRITICAL_PROCESS_DIED: u32 = 0x000000EF;

/// Private stop code for panics.
pub const RUST_PANIC: u32 = 0xDEAD_0001;

/// A stop code with its parameters.
#[derive(Debug, Clone, Copy, PartialEq, Eq, Structural)]
pub struct Stop {
    pub code: u32,
    pub p1: u64,
    pub p2: u64,
    pub p3: u64,
    pub p4: u64,
}

/// What is left to do for a bugcheck. Either way the processor halts.
#[derive(Debug, Clone, Copy, PartialEq, Eq, Structural)]
pub enum StopAction {
    /// Print the banner, report failure to the machine monitor, halt.
    Report(Stop),
    /// A bugcheck during a bugcheck: halt.
    Halt,
}

/// The processor that a bugcheck leaves: interrupts masked, the level the highest, and
/// every other flag as it was.
pub open spec fn halted(cpu: Processor) -> Processor {
    Processor { irql: HIGH_LEVEL, rflags: cpu.rflags & !RFLAGS_IF }
}

/// What a bugcheck comes to: the latch is set, interrupts are masked and the
/// level is the highest; only the first one reports.
pub open spec fn stopped(latch: bool, stop: Stop) -> StopAction {
    if latch {
        StopAction::Halt
    } else {
        StopAction::Report(stop)
    }
}

/// `KeBugCheckEx`: a fatal stop with four diagnostic parameters. `latch` tells
/// whether a bugcheck is under way.
pub fn ke_bug_check_ex(
    cpu: &mut Processor,
    latch: &mut bool,
    code: u32,
    p1: u64,
    p2: u64,
    p3: u64,
    p4: u64,
) -> (a: StopAction)
    requires
        old(cpu).irql <= HIGH_LEVEL,
    ensures
        *final(latch),
        *final(cpu) == halted(*old(cpu)),
        !interrupts_on(final(cpu).rflags),
        a == stopped(*old(latch), Stop { code, p1, p2, p3, p4 }),
{
    let _ = disable_interrupts(cpu);
    let _ = ke_raise_irql(cpu, HIGH_LEVEL);
    let again: bool = *latch;
    *latch = true;
    if again {
        StopAction::Halt
    } else {
        StopAction::Report(Stop { code, p1, p2, p3, p4 })
    }
}

/// `KeBugCheck`: a fatal stop without parameters.
pub fn ke_bug_check(cpu: &mut Processor, latch: &mut bool, code: u32) -> (a: StopAction)
    requires
        old(cpu).irql <= HIGH_LEVEL,
    ensures
        *final(latch),
        *final(cpu) == halted(*old(cpu)),
        !interrupts_on(final(cpu).rflags),
        a == stopped(*old(latch), Stop { code, p1: 0, p2: 0, p3: 0, p4: 0 }),
{
    ke_bug_check_ex(cpu, latch, code, 0, 0, 0, 0)
}

/// The back end of the panic handler: a stop with the private code.
pub fn ke_bug_check_panic(cpu: &mut Processor, latch: &mut bool) -> (a: StopAction)
    requires
        old(cpu).irql <= HIGH_LEVEL,
    ensures
        *final(latch),
        *final(cpu) == halted(*old(cpu)),
        !interrupts_on(final(cpu).rflags),
        a == stopped(*old(latch), Stop { code: RUST_PANIC, p1: 0, p2: 0, p3: 0, p4: 0 }),
{
    ke_bug_check_ex(cpu, latch, RUST_PANIC, 0, 0, 0, 0)
}

/// The name of a stop code.
pub open spec fn named_stop(code: u32) -> Seq<char> {
    if code == IRQL_NOT_LESS_OR_EQUAL {
        "IRQL_NOT_LESS_OR_EQUAL"@
    } else if code == KMODE_EXCEPTION_NOT_HANDLED {
        "KMODE_EXCEPTION_NOT_HANDLED"@
    } else if code == PFN_LIST_CORRUPT {
        "PFN_LIST_CORRUPT"@
    } else if code == PAGE_FAULT_IN_NONPAGED_AREA {
        "PAGE_FAULT_IN_NONPAGED_AREA"@
    } else if code == MANUALLY_INITIATED_CRASH {
        "MANUALLY_INITIATED_CRASH"@
    } else if code == CRITICAL_PROCESS_DIED {
        "CRITICAL_PROCESS_DIED"@
    } else if code == RUST_PANIC {
        "RUST_PANIC"@
    } else {
        "UNKNOWN_STOP_CODE"@
    }
}

/// The name of a stop code for the banner.
pub fn stop_code_name(code: u32) -> (name: &'static str)
    ensures
        name@ == named_stop(code),
{
    if code == IRQL_NOT_LESS_OR_EQUAL {
        "IRQL_NOT_LESS_OR_EQUAL"
    } else if code == KMODE_EXCEPTION_NOT_HANDLED {
        "KMODE_EXCEPTION_NOT_HANDLED"
    } else if code == PFN_LIST_CORRUPT {
        "PFN_LIST_CORRUPT"
    } else if code == PAGE_FAULT_IN_NONPAGED_AREA {
        "PAGE_FAULT_IN_NONPAGED_AREA"
    } else if code == MANUALLY_INITIATED_CRASH {
        "MANUALLY_INITIATED_CRASH"
    } else if code == CRITICAL_PROCESS_DIED {
        "CRITICAL_PROCESS_DIED"
    } else if code == RUST_PANIC {
        "RUST_PANIC"
    } else {
        "UNKNOWN_STOP_CODE"
    }
}

/// A stop raises the processor to the highest level and turns interrupts off.
pub proof fn a_stop_masks_everything(cpu: Processor, v: u8)
    ensures
        halted(cpu).irql == 15,
        !interrupts_on(halted(cpu).rflags),
        !crate::ke::irql::delivered(halted(cpu), v),
{
    let x = cpu.rflags;
    assert((x & !0x200u64) & 0x200 == 0) by (bit_vector);
}

/// The first stop is reported; a stop within a stop only halts.
pub proof fn the_first_stop_is_reported(stop: Stop)
    ensures
        stopped(false, stop) == StopAction::Report(stop),
        stopped(true, stop) == StopAction::Halt,
{
}

/// Stop codes go by their names.
pub proof fn stop_codes_go_by_their_names()
    ensures
        named_stop(0x0A) == "IRQL_NOT_LESS_OR_EQUAL"@,
        named_stop(0x1E) == "KMODE_EXCEPTION_NOT_HANDLED"@,
        named_stop(0x4E) == "PFN_LIST_CORRUPT"@,
        named_stop(0x50) == "PAGE_FAULT_IN_NONPAGED_AREA"@,
        named_stop(0xE2) == "MANUALLY_INITIATED_CRASH"@,
        named_stop(0xEF) == "CRITICAL_PROCESS_DIED"@,
        named_stop(0xDEAD_0001) == "RUST_PANIC"@,
        named_stop(0) == "UNKNOWN_STOP_CODE"@,
{
}

} // verus!
