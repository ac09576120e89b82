//! Trap entry: the saved state of an interrupted computation and what each
//! vector leads to.
use crate::ke::bugcheck::{Stop, KMODE_EXCEPTION_NOT_HANDLED, PAGE_FAULT_IN_NONPAGED_AREA};
use crate::ke::scheduler::Dispatcher;
use crate::ke::signal::{ki_clock_tick, ticked};
use vstd::prelude::*;

verus! {

/// Saved processor state, in stack order: the general registers, what the entry
/// stub pushed, and what the processor pushed.
#[derive(Debug, Clone, Copy, PartialEq, Eq, Structural)]
pub struct KtrapFrame {
    pub rax: u64,
    pub rcx: u64,
    pub rdx: u64,
    pub rbx: u64,
    pub rbp: u64,
    pub rsi: u64,
    pub rdi: u64,
    pub r8: u64,
    pub r9: u64,
    pub r10: u64,
    pub r11: u64,
    pub r12: u64,
    pub r13: u64,
    pub r14: u64,
    pub r15: u64,
    pub vector: u64,
    /// Hardware error code, 0 for vectors that have none.
    pub error_code: u64,
    pub rip: u64,
    pub cs: u64,
    pub rflags: u64,
    pub rsp: u64,
    pub ss: u64,
}

/// Debug exception.
pub const VECTOR_DEBUG: u8 = 1;

pub const VECTOR_NMI: u8 = 2;

/// `int3`.
pub const VECTOR_BREAKPOINT: u8 = 3;

pub const VECTOR_DOUBLE_FAULT: u8 = 8;

pub const VECTOR_GP_FAULT: u8 = 13;

pub const VECTOR_PAGE_FAULT: u8 = 14;

pub const VECTOR_MCE: u8 = 18;

/// Clock tick.
pub const VECTOR_CLOCK: u8 = 0xD1;

/// Dispatch software interrupt.
pub const VECTOR_DPC: u8 = 0x2F;

/// Spurious interrupt.
pub const VECTOR_SPURIOUS: u8 = 0xFF;

/// Bytes between two entry stubs.
pub const STUB_STRIDE: u64 = 16;

/// The processor pushes an error code for this vector; the stubs of all others
/// push a zero in its place.
pub open spec fn pushes_error_code(vector: u8) -> bool {
    vector == 8 || 10 <= vector <= 14 || vector == 17 || vector == 21 || vector == 29 || vector
        == 30
}

/// Does the processor push an error code for this vector?
pub fn has_error_code(vector: u8) -> (r: bool)
    ensures
        r == pushes_error_code(vector),
{
    vector == 8 || (10 <= vector && vector <= 14) || vector == 17 || vector == 21 || vector == 29
        || vector == 30
}

/// What is left to do for a trap.
#[derive(Debug, Clone, Copy, PartialEq, Eq, Structural)]
pub enum TrapAction {
    /// The tick has been counted. Request a dispatch interrupt if the flag is
    /// set, then acknowledge the interrupt.
    Clock(bool),
    /// Acknowledge the interrupt, then run the deferred calls and the dispatch
    /// interrupt: the dispatch may switch threads, and the next one must not run
    /// with this vector in service.
    Dispatch,
    /// Nothing, not even an acknowledgement.
    Spurious,
    /// End the faulting thread.
    TerminateThread,
    /// Bugcheck.
    Stop(Stop),
    /// Hand the frame to the single-step handler.
    SingleStep,
    /// Hand the frame to the breakpoint handler.
    Breakpoint,
    /// Acknowledge an unexpected device interrupt.
    Acknowledge,
}

/// The trap came from user mode.
pub open spec fn from_user(frame: KtrapFrame) -> bool {
    frame.cs % 4 == 3
}

/// The vector of a frame.
pub open spec fn vector_of(frame: KtrapFrame) -> u8 {
    (frame.vector % 256) as u8
}

/// Where a trap leads; `tick` is the outcome of a clock tick. A fault in user
/// mode ends the thread that caused it; one in the kernel stops the machine.
pub open spec fn routed(frame: KtrapFrame, cr2: u64, tick: bool) -> TrapAction {
    let v = vector_of(frame);
    if v == VECTOR_CLOCK {
        TrapAction::Clock(tick)
    } else if v == VECTOR_DPC {
        TrapAction::Dispatch
    } else if v == VECTOR_SPURIOUS {
        TrapAction::Spurious
    } else if v == VECTOR_PAGE_FAULT {
        if from_user(frame) {
            TrapAction::TerminateThread
        } else {
            TrapAction::Stop(
                Stop {
                    code: PAGE_FAULT_IN_NONPAGED_AREA,
                    p1: cr2,
                    p2: frame.error_code,
                    p3: frame.rip,
                    p4: 0,
                },
            )
        }
    } else if v == VECTOR_DOUBLE_FAULT {
        TrapAction::Stop(
            Stop {
                code: KMODE_EXCEPTION_NOT_HANDLED,
                p1: v as u64,
                p2: frame.rip,
                p3: frame.rsp,
                p4: 0,
            },
        )
    } else if v == VECTOR_DEBUG {
        TrapAction::SingleStep
    } else if v == VECTOR_BREAKPOINT {
        TrapAction::Breakpoint
    } else if v < 32 {
        if from_user(frame) {
            TrapAction::TerminateThread
        } else {
            TrapAction::Stop(
                Stop {
                    code: KMODE_EXCEPTION_NOT_HANDLED,
                    p1: v as u64,
                    p2: frame.rip,
                    p3: frame.error_code,
                    p4: 0,
                },
            )
        }
    } else {
        TrapAction::Acknowledge
    }
}

/// `KiDispatchTrap`: the router every interrupt and exception goes through.
/// `cr2` is the address of a page fault. The clock tick is counted here; the rest
/// is the caller's.
pub fn ki_dispatch_trap(d: &mut Dispatcher, frame: &KtrapFrame, cr2: u64) -> (a: TrapAction)
    requires
        old(d).wf(),
    ensures
        final(d).wf(),
        final(d)@ == if vector_of(*frame) == VECTOR_CLOCK {
            ticked(old(d)@).0
        } else {
            old(d)@
        },
        a == routed(*frame, cr2, ticked(old(d)@).1),
{
    let v: u8 = (frame.vector % 256) as u8;
    let user: bool = frame.cs % 4 == 3;
    if v == VECTOR_CLOCK {
        let request: bool = ki_clock_tick(d);
        return TrapAction::Clock(request);
    }
    if v == VECTOR_DPC {
        return TrapAction::Dispatch;
    }
    if v == VECTOR_SPURIOUS {
        return TrapAction::Spurious;
    }
    if v == VECTOR_PAGE_FAULT {
        if user {
            return TrapAction::TerminateThread;
        }
        return TrapAction::Stop(
            Stop {
                code: PAGE_FAULT_IN_NONPAGED_AREA,
                p1: cr2,
                p2: frame.error_code,
                p3: frame.rip,
                p4: 0,
            },
        );
    }
    if v == VECTOR_DOUBLE_FAULT {
        return TrapAction::Stop(
            Stop {
                code: KMODE_EXCEPTION_NOT_HANDLED,
                p1: v as u64,
                p2: frame.rip,
                p3: frame.rsp,
                p4: 0,
            },
        );
    }
    if v == VECTOR_DEBUG {
        return TrapAction::SingleStep;
    }
    if v == VECTOR_BREAKPOINT {
        return TrapAction::Breakpoint;
    }
    if v < 32 {
        if user {
            return TrapAction::TerminateThread;
        }
        return TrapAction::Stop(
            Stop {
                code: KMODE_EXCEPTION_NOT_HANDLED,
                p1: v as u64,
                p2: frame.rip,
                p3: frame.error_code,
                p4: 0,
            },
        );
    }
    TrapAction::Acknowledge
}

/// No fault of a user program stops the machine, but for a double fault.
pub proof fn a_user_fault_never_stops_the_machine(frame: KtrapFrame, cr2: u64, tick: bool)
    requires
        from_user(frame),
        vector_of(frame) != VECTOR_DOUBLE_FAULT,
    ensures
        !(routed(frame, cr2, tick) is Stop),
{
}

/// A fault in the kernel is always fatal.
pub proof fn a_kernel_fault_stops_the_machine(frame: KtrapFrame, cr2: u64, tick: bool)
    requires
        !from_user(frame),
        vector_of(frame) < 32,
        vector_of(frame) != VECTOR_DEBUG,
        vector_of(frame) != VECTOR_BREAKPOINT,
    ensures
        routed(frame, cr2, tick) is Stop,
{
}

/// An interrupt never ends a thread or stops the machine.
pub proof fn an_interrupt_is_survived(frame: KtrapFrame, cr2: u64, tick: bool)
    requires
        vector_of(frame) >= 32,
    ensures
        !(routed(frame, cr2, tick) is Stop),
        !(routed(frame, cr2, tick) is TerminateThread),
{
}

/// A trap is told by its vector alone where it is not a fault: the clock, the dispatch
/// interrupt, the spurious vector, single steps and breakpoints; every other interrupt is
/// acknowledged.
pub proof fn a_trap_is_routed_by_its_vector(frame: KtrapFrame, cr2: u64, tick: bool)
    ensures
        frame.vector % 256 == 0xD1 ==> routed(frame, cr2, tick) == TrapAction::Clock(tick),
        frame.vector % 256 == 0x2F ==> routed(frame, cr2, tick) == TrapAction::Dispatch,
        frame.vector % 256 == 0xFF ==> routed(frame, cr2, tick) == TrapAction::Spurious,
        frame.vector % 256 == 1 ==> routed(frame, cr2, tick) == TrapAction::SingleStep,
        frame.vector % 256 == 3 ==> routed(frame, cr2, tick) == TrapAction::Breakpoint,
        32 <= frame.vector % 256 && frame.vector % 256 != 0xD1 && frame.vector % 256 != 0x2F
            && frame.vector % 256 != 0xFF ==> routed(frame, cr2, tick) == TrapAction::Acknowledge,
{
}

/// A fault of a program, told by the low bits of its code segment, ends its thread.
pub proof fn a_user_fault_ends_its_thread(frame: KtrapFrame, cr2: u64, tick: bool)
    requires
        frame.cs % 4 == 3,
        frame.vector % 256 < 32,
        frame.vector % 256 != 1,
        frame.vector % 256 != 3,
        frame.vector % 256 != 8,
    ensures
        routed(frame, cr2, tick) == TrapAction::TerminateThread,
{
}

/// What a fatal trap reports: for a page fault the address, the error code and the
/// instruction; for a double fault the vector, the instruction and the stack; for any
/// other fault the vector, the instruction and the error code.
pub proof fn a_fatal_trap_reports_where_it_happened(frame: KtrapFrame, cr2: u64, tick: bool)
    ensures
        routed(frame, cr2, tick) matches TrapAction::Stop(s) ==> {
            &&& s.p4 == 0
            &&& frame.vector % 256 == 14 ==> s.code == 0x50 && s.p1 == cr2 && s.p2
                == frame.error_code && s.p3 == frame.rip
            &&& frame.vector % 256 != 14 ==> s.code == 0x1E && s.p1 == frame.vector % 256 && s.p2
                == frame.rip
            &&& frame.vector % 256 == 8 ==> s.p3 == frame.rsp
            &&& frame.vector % 256 != 8 && frame.vector % 256 != 14 ==> s.p3 == frame.error_code
        },
{
}

/// The processor pushes an error code for the double fault, the segment, stack, protection
/// and page faults, the alignment check and the three control and virtualization faults.
pub proof fn error_codes_come_with_ten_vectors(vector: u8)
    ensures
        pushes_error_code(vector) <==> set![8u8, 10, 11, 12, 13, 14, 17, 21, 29, 30].contains(
            vector,
        ),
{
}

} // verus!
