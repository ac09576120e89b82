//! Page faults and the exceptions of user programs.
//!
//! A fault on a page that is committed but not there is resolved and the
//! instruction runs again. A fault in a guarded copy lands where the copy was
//! started. Any other exception of a user program is handed to the program's own
//! dispatcher. What is left over goes the way of
//! [`ki_dispatch_trap`](crate::ke::traps::ki_dispatch_trap).
use crate::ke::exception::{
    coded, dispatch_exception, dispatched, exception_code_for, Delivered, Delivery,
};
use crate::ke::irql::{Kirql, PASSIVE_LEVEL};
use crate::ke::pcr::{current_of, with_current};
use crate::ke::scheduler::{Dispatcher, Sched};
use crate::ke::thread::Kthread;
use crate::ke::traps::{
    from_user, vector_of, KtrapFrame, VECTOR_BREAKPOINT, VECTOR_DEBUG, VECTOR_PAGE_FAULT,
};
use crate::mm::pageout::{PageFile, PageFileState, PageRead};
use crate::mm::phys::PhysState;
use crate::mm::probe::{land, landed, take_recovery};
use crate::mm::vad::{resolved, vad_resolve, Resolve, Vad, VadDatabase};
use crate::mm::virt::Mmu;
use vstd::prelude::*;

verus! {

/// What is left to do for a fault.
#[derive(Debug, Clone, Copy, PartialEq, Eq)]
pub enum FaultAction {
    /// Go on at the trap frame.
    Resume,
    /// Read a page back from the pagefile, map it with this protection, and go on
    /// at the trap frame.
    ReadBack(PageRead, bool, bool),
    /// The fault is final.
    Unhandled,
}

/// A trap is an exception that a program can be at fault for: one of the
/// processor's own, but for the debugger's.
pub open spec fn is_exception(frame: KtrapFrame) -> bool {
    let v = vector_of(frame);
    v < 32 && v != VECTOR_DEBUG && v != VECTOR_BREAKPOINT
}

/// A fault can be resolved: the page was not there, and the interrupted code ran
/// at the lowest level.
pub open spec fn resolvable(frame: KtrapFrame, irql: Kirql) -> bool {
    vector_of(frame) == VECTOR_PAGE_FAULT && frame.error_code % 2 == 0 && irql == PASSIVE_LEVEL
}

/// Backing the page of a fault: memory, pagefile, and what came of it.
pub open spec fn backing(
    frame: KtrapFrame,
    irql: Kirql,
    vads: Seq<Vad>,
    st: PhysState,
    pf: PageFileState,
    root: u64,
    cr2: u64,
) -> (PhysState, PageFileState, Resolve) {
    if resolvable(frame, irql) {
        resolved(vads, st, pf, root, ((cr2 / 4096) * 4096) as u64)
    } else {
        (st, pf, Resolve::Fault)
    }
}

/// Handing an exception to the user program.
pub open spec fn delivered(
    st: PhysState,
    pf: PageFileState,
    root: u64,
    db: &VadDatabase,
    frame: KtrapFrame,
    cr2: u64,
    stub: u64,
) -> Delivered {
    match coded(vector_of(frame), frame.error_code, cr2) {
        Some((code, info, n)) => dispatched(st, pf, root, db, frame, stub, code, info, n),
        None => Delivered {
            phys: st,
            pf,
            victims: Seq::empty(),
            frame,
            delivery: Delivery::Refused,
        },
    }
}

/// Hand an exception to the user program that raised it. It fails for exceptions
/// that never reach user mode, and when the program cannot take it.
pub fn ki_user_exception(
    mmu: &mut Mmu,
    db: &VadDatabase,
    pf: &mut PageFile,
    frame: &mut KtrapFrame,
    cr2: u64,
    stub: u64,
    victims: &mut Vec<(u64, u64)>,
) -> (r: Delivery)
    requires
        db.wf(),
        old(mmu).phys.wf(),
        old(pf).wf(),
    ensures
        final(mmu).phys.wf(),
        final(pf).wf(),
        final(mmu).same_registers(old(mmu)),
        ({
            let o = delivered(
                old(mmu).phys@,
                old(pf)@,
                old(mmu).root(),
                db,
                *old(frame),
                cr2,
                stub,
            );
            &&& final(mmu).phys@ == o.phys
            &&& final(pf)@ == o.pf
            &&& final(victims)@ == old(victims)@ + o.victims
            &&& *final(frame) == o.frame
            &&& r == o.delivery
        }),
{
    let vector: u8 = (frame.vector % 0x100) as u8;
    match exception_code_for(vector, frame.error_code, cr2) {
        Some((code, info, n)) => dispatch_exception(
            mmu,
            db,
            pf,
            frame,
            stub,
            code,
            info,
            n as u32,
            victims,
        ),
        None => {
            assert(victims@ =~= old(victims)@ + Seq::empty());
            Delivery::Refused
        },
    }
}

/// Everything that dealing with a fault leaves behind.
pub struct FaultOutcome {
    pub sched: Sched,
    pub phys: PhysState,
    pub pages: PageFileState,
    /// Pages that must be evicted.
    pub victims: Seq<(u64, u64)>,
    pub frame: KtrapFrame,
    pub action: FaultAction,
}

/// Dealing with a fault of the current thread.
pub open spec fn handled(
    s: Sched,
    st: PhysState,
    pf: PageFileState,
    root: u64,
    db: &VadDatabase,
    frame: KtrapFrame,
    cr2: u64,
    irql: Kirql,
    stub: u64,
) -> FaultOutcome {
    let th = current_of(s);
    let (phys, pages, r) = backing(frame, irql, db.of(root), st, pf, root, cr2);
    match r {
        Resolve::Done(evict) => FaultOutcome {
            sched: s,
            phys,
            pages,
            victims: match evict {
                Some(v) => seq![v],
                None => Seq::empty(),
            },
            frame,
            action: FaultAction::Resume,
        },
        Resolve::ReadBack(read, w, x) => FaultOutcome {
            sched: s,
            phys,
            pages,
            victims: Seq::empty(),
            frame,
            action: FaultAction::ReadBack(read, w, x),
        },
        Resolve::Fault => if is_exception(frame) && from_user(frame) {
            let o = delivered(phys, pages, root, db, frame, cr2, stub);
            FaultOutcome {
                sched: s,
                phys: o.phys,
                pages: o.pf,
                victims: o.victims,
                frame: o.frame,
                action: match o.delivery {
                    Delivery::Taken => FaultAction::Resume,
                    Delivery::Refused => FaultAction::Unhandled,
                    Delivery::Read(p) => FaultAction::ReadBack(p.read, p.writable, p.executable),
                },
            }
        } else if vector_of(frame) == VECTOR_PAGE_FAULT && th.recovery_armed {
            FaultOutcome {
                sched: with_current(s, Kthread { recovery_armed: false, ..th }),
                phys,
                pages,
                victims: Seq::empty(),
                frame: landed(frame, th.fault_recovery),
                action: FaultAction::Resume,
            }
        } else {
            FaultOutcome {
                sched: s,
                phys,
                pages,
                victims: Seq::empty(),
                frame,
                action: FaultAction::Unhandled,
            }
        },
    }
}

/// Deal with a fault of the current thread: resolve it, let a guarded copy fail, or
/// hand it to the user program. Pages to evict are added to `victims`.
pub fn ki_handle_fault(
    d: &mut Dispatcher,
    mmu: &mut Mmu,
    db: &VadDatabase,
    pf: &mut PageFile,
    frame: &mut KtrapFrame,
    cr2: u64,
    irql: Kirql,
    stub: u64,
    victims: &mut Vec<(u64, u64)>,
) -> (a: FaultAction)
    requires
        old(d).wf(),
        old(mmu).phys.wf(),
        db.wf(),
        old(pf).wf(),
    ensures
        final(d).wf(),
        final(mmu).phys.wf(),
        final(pf).wf(),
        final(mmu).same_registers(old(mmu)),
        ({
            let o = handled(
                old(d)@,
                old(mmu).phys@,
                old(pf)@,
                old(mmu).root(),
                db,
                *old(frame),
                cr2,
                irql,
                stub,
            );
            &&& final(d)@ == o.sched
            &&& final(mmu).phys@ == o.phys
            &&& final(pf)@ == o.pages
            &&& final(victims)@ == old(victims)@ + o.victims
            &&& *final(frame) == o.frame
            &&& a == o.action
        }),
{
    let vector: u8 = (frame.vector % 0x100) as u8;
    assert(victims@ =~= old(victims)@ + Seq::empty());
    if vector == VECTOR_PAGE_FAULT && frame.error_code % 2 == 0 && irql == PASSIVE_LEVEL {
        match vad_resolve(db, mmu, pf, cr2) {
            Resolve::Done(evict) => {
                if let Some(v) = evict {
                    victims.push(v);
                    assert(victims@ =~= old(victims)@ + seq![v]);
                }
                return FaultAction::Resume;
            },
            Resolve::ReadBack(read, w, x) => {
                return FaultAction::ReadBack(read, w, x);
            },
            Resolve::Fault => {},
        }
    }
    if vector < 32 && vector != VECTOR_DEBUG && vector != VECTOR_BREAKPOINT && frame.cs % 4 == 3 {
        return match ki_user_exception(mmu, db, pf, frame, cr2, stub, victims) {
            Delivery::Taken => FaultAction::Resume,
            Delivery::Refused => FaultAction::Unhandled,
            Delivery::Read(p) => FaultAction::ReadBack(p.read, p.writable, p.executable),
        };
    }
    if vector == VECTOR_PAGE_FAULT {
        let ghost before = d@;
        match take_recovery(d) {
            Some(r) => {
                land(frame, &r);
                return FaultAction::Resume;
            },
            None => {
                assert(d@ =~= before);
            },
        }
    }
    FaultAction::Unhandled
}

/// A fault in a guarded copy never stops the machine: where the page cannot be
/// backed, the copy lands where it was started and fails there. The thread's next
/// fault is not excused.
pub proof fn a_guarded_copy_survives_a_fault(
    s: Sched,
    st: PhysState,
    pf: PageFileState,
    root: u64,
    db: &VadDatabase,
    frame: KtrapFrame,
    cr2: u64,
    irql: Kirql,
    stub: u64,
)
    requires
        s.current < s.threads.len(),
        current_of(s).recovery_armed,
        vector_of(frame) == VECTOR_PAGE_FAULT,
        !from_user(frame),
    ensures
        ({
            let o = handled(s, st, pf, root, db, frame, cr2, irql, stub);
            &&& !(o.action is Unhandled)
            &&& backing(frame, irql, db.of(root), st, pf, root, cr2).2 is Fault ==> {
                &&& o.action == FaultAction::Resume
                &&& o.frame.rip == current_of(s).fault_recovery.rip
                &&& o.frame.rsp == current_of(s).fault_recovery.rsp
                &&& o.frame.rax == 1
                &&& o.frame.cs == frame.cs
                &&& !current_of(o.sched).recovery_armed
            }
        }),
{
}

/// A fault on a page that is there changes no memory and no pagefile: a write to a
/// read-only page is never turned into a permission.
pub proof fn a_protection_fault_maps_nothing(
    frame: KtrapFrame,
    irql: Kirql,
    vads: Seq<Vad>,
    st: PhysState,
    pf: PageFileState,
    root: u64,
    cr2: u64,
)
    requires
        frame.error_code % 2 == 1,
    ensures
        backing(frame, irql, vads, st, pf, root, cr2) == (st, pf, Resolve::Fault),
{
}

/// A page fault is looked at only where the page is missing, and only at the lowest level.
pub proof fn a_missing_page_is_looked_for_at_the_lowest_level(frame: KtrapFrame, irql: Kirql)
    ensures
        resolvable(frame, irql) ==> frame.error_code % 2 == 0 && irql == 0 && vector_of(frame) == 14,
        vector_of(frame) == 14 && frame.error_code % 2 == 0 ==> resolvable(frame, 0),
{
}

/// Faults are exceptions of the first 32 vectors, without the two that the debugger takes.
pub proof fn faults_are_the_first_vectors(frame: KtrapFrame)
    ensures
        is_exception(frame) == (vector_of(frame) < 32 && vector_of(frame) != 1 && vector_of(frame)
            != 3),
{
}

/// A fault that is settled resumes what faulted, unchanged.
pub proof fn a_settled_fault_resumes(
    s: Sched,
    st: PhysState,
    pf: PageFileState,
    root: u64,
    db: &VadDatabase,
    frame: KtrapFrame,
    cr2: u64,
    irql: Kirql,
    stub: u64,
    page: u64,
)
    requires
        resolvable(frame, irql),
        page % 4096 == 0,
        page <= cr2 < page + 4096,
        resolved(db.of(root), st, pf, root, page).2 is Done,
    ensures
        ({
            let o = handled(s, st, pf, root, db, frame, cr2, irql, stub);
            &&& o.action == FaultAction::Resume
            &&& o.frame == frame
            &&& o.sched == s
            &&& o.phys == resolved(db.of(root), st, pf, root, page).0
            &&& o.pages == resolved(db.of(root), st, pf, root, page).1
        }),
{
    assert(((cr2 / 4096) * 4096) as u64 == page);
}

/// A fault of the kernel that no recovery is armed for is not handled.
pub proof fn a_kernel_fault_without_recovery_is_not_handled(
    s: Sched,
    st: PhysState,
    pf: PageFileState,
    root: u64,
    db: &VadDatabase,
    frame: KtrapFrame,
    cr2: u64,
    irql: Kirql,
    stub: u64,
)
    requires
        !resolvable(frame, irql),
        !from_user(frame),
        !current_of(s).recovery_armed,
    ensures
        handled(s, st, pf, root, db, frame, cr2, irql, stub).action == FaultAction::Unhandled,
        handled(s, st, pf, root, db, frame, cr2, irql, stub).frame == frame,
{
}

} // verus!
