//! Entry to user mode.
//!
//! In kernel mode the active GS base is the processor control region; in user
//! mode it is the thread block, with the control region parked. The frames here
//! are what the return instruction pops.
use crate::ke::debug::{take_armed, DebugState, Trace};
use crate::ke::pcr::{current, set_current, with_current};
use crate::ke::scheduler::Dispatcher;
use crate::ke::selectors::{USER_CS, USER_SS};
use crate::ke::thread::Kthread;
use vstd::prelude::*;

verus! {

/// The frame of a first entry to user mode and the GS base to park for it.
#[derive(Debug, Clone, Copy, PartialEq, Eq, Structural)]
pub struct UserEntry {
    pub rip: u64,
    pub cs: u64,
    pub rflags: u64,
    pub rsp: u64,
    pub ss: u64,
    pub gs_base: u64,
}

/// The flags of a first entry: interrupts on, and the trap flag when the tracer
/// is armed.
pub open spec fn entry_flags(traced: bool) -> u64 {
    if traced {
        0x302
    } else {
        0x202
    }
}

/// The frame of a first entry. A thread without a thread block keeps the control
/// region as its GS base.
pub open spec fn entered(rip: u64, rsp: u64, teb: u64, kpcr: u64, traced: bool) -> UserEntry {
    UserEntry {
        rip,
        cs: USER_CS,
        rflags: entry_flags(traced),
        rsp,
        ss: USER_SS,
        gs_base: if teb != 0 {
            teb
        } else {
            kpcr
        },
    }
}

/// Take the current thread to user mode: record its GS base and consume the
/// tracer's armed flag.
pub fn ki_enter_user_mode(
    d: &mut Dispatcher,
    dbg: &mut DebugState,
    rip: u64,
    rsp: u64,
    teb: u64,
    kpcr: u64,
) -> (e: UserEntry)
    requires
        old(d).wf(),
        old(dbg).wf(),
    ensures
        final(d).wf(),
        final(dbg).wf(),
        e == entered(rip, rsp, teb, kpcr, old(dbg)@.armed),
        final(dbg)@ == (Trace {
            armed: false,
            tracing: old(dbg)@.tracing || old(dbg)@.armed,
            ..old(dbg)@
        }),
        final(d)@ == with_current(old(d)@, Kthread {
            gs_base: e.gs_base,
            ..old(d)@.threads[old(d)@.current as int]
        }),
{
    let gs_base: u64 = if teb != 0 {
        teb
    } else {
        kpcr
    };
    let mut th: Kthread = current(d);
    th.gs_base = gs_base;
    set_current(d, th);
    let traced: bool = take_armed(dbg);
    let rflags: u64 = if traced {
        0x302
    } else {
        0x202
    };
    UserEntry { rip, cs: USER_CS, rflags, rsp, ss: USER_SS, gs_base }
}

/// The kernel stack to resume a context on: the stack of the service call that
/// led here is abandoned.
pub fn ki_continue_user_mode(d: &Dispatcher) -> (stack_top: u64)
    requires
        d.wf(),
    ensures
        stack_top == d@.threads[d@.current as int].stack_top,
{
    d.threads[d.current].stack_top
}

/// A program is entered in ring three with interrupts on, and with single steps only where it
/// is traced; its block is in the segment that it looks in, or the processor's where it has
/// none.
pub proof fn a_program_is_entered_in_ring_three(rip: u64, rsp: u64, teb: u64, kpcr: u64)
    ensures
        ({
            let e = entered(rip, rsp, teb, kpcr, false);
            &&& e.rip == rip
            &&& e.rsp == rsp
            &&& e.cs == 0x33
            &&& e.ss == 0x2B
            &&& e.rflags == 0x202
            &&& teb != 0 ==> e.gs_base == teb
            &&& teb == 0 ==> e.gs_base == kpcr
        }),
        entered(rip, rsp, teb, kpcr, true).rflags == 0x302,
{
}

} // verus!
