//! The user-mode tracer.
//!
//! With the trap flag set the processor raises a debug exception after every
//! instruction. The tracer steps through the program image only: on a call into
//! a library it arms a hardware breakpoint at the return address and lets the
//! library run at full speed. It reports calls and returns, and, when a chosen
//! value is passed, a backtrace of the instructions before.
use crate::bytes::{get64, u64le};
use crate::ke::traps::KtrapFrame;
use crate::mm::probe::{probe_for_read, probed};
use crate::mm::user::{lemma_small_powers, read_user, user_bytes};
use crate::mm::vad::VadDatabase;
use crate::mm::virt::Mmu;
use vstd::prelude::*;

verus! {

/// The trap flag in RFLAGS.
pub const RFLAGS_TF: u64 = 0x100;

/// Modules the tracer can tell apart.
pub const MAX_MODULES: usize = 8;

/// Instructions a backtrace goes back.
pub const RECENT: usize = 4096;

/// An address range with a name.
#[derive(Debug, Clone, Copy)]
pub struct Module {
    pub name: &'static str,
    pub base: u64,
    pub size: u64,
    /// A library, as opposed to the program image.
    pub is_lib: bool,
}

/// The hardware breakpoint registers.
#[derive(Debug, Clone, Copy, PartialEq, Eq, Structural)]
pub struct DebugRegisters {
    pub dr0: u64,
    pub dr6: u64,
    pub dr7: u64,
}

/// The tracer.
pub struct DebugState {
    /// Set the trap flag on the next entry to user mode.
    pub armed: bool,
    pub tracing: bool,
    /// Steps left.
    pub budget: u64,
    /// Steps taken.
    pub steps: u64,
    /// The step before was in a library.
    pub in_lib: bool,
    pub modules: Vec<Module>,
    /// Ring of recent instruction addresses in the image.
    pub recent: Vec<u64>,
    pub recent_head: usize,
    pub recent_count: usize,
    /// Report a backtrace at the first call with this value in RDX; 0 for none.
    pub trigger_rdx: u64,
    pub triggered: bool,
    /// Return address of the library call that runs free, 0 while stepping.
    pub lib_ret: u64,
}

/// The abstract tracer.
#[verifier::ext_equal]
pub struct Trace {
    pub armed: bool,
    pub tracing: bool,
    pub budget: u64,
    pub steps: u64,
    pub in_lib: bool,
    pub modules: Seq<Module>,
    /// Recent instruction addresses, oldest first.
    pub recent: Seq<u64>,
    pub trigger_rdx: u64,
    pub triggered: bool,
    pub lib_ret: u64,
}

/// What the tracer reports. A module is given by its position counted from one,
/// 0 for none; an offset is into that module.
#[derive(Debug, Clone, Copy, PartialEq, Eq, Structural)]
pub enum TraceEvent {
    /// A call into a library, with its arguments.
    Call { module: usize, offset: u64, rcx: u64, rdx: u64, r8: u64, r9: u64 },
    /// A return from a library.
    Return { rax: u64 },
    /// Tracing has ended.
    Ended { steps: u64 },
    /// A backtrace over this many instructions follows.
    Backtrace { scanned: usize },
    /// A known error decision, this many instructions back.
    Decision { module: usize, offset: u64, back: usize },
    /// An instruction on the way to it.
    Into { module: usize, offset: u64 },
    /// The last instructions follow.
    Tail { count: usize },
    /// One of the last instructions.
    Last { module: usize, offset: u64 },
    /// A breakpoint instruction.
    Breakpoint { module: usize, offset: u64, rip: u64 },
}

/// Where an address lies: the first module that holds it, counted from `i`.
pub open spec fn located(modules: Seq<Module>, rip: u64, i: int) -> (int, u64)
    decreases modules.len() - i,
{
    if i < 0 || i >= modules.len() {
        (0, rip)
    } else if modules[i].base <= rip < modules[i].base + modules[i].size {
        (i + 1, (rip - modules[i].base) as u64)
    } else {
        located(modules, rip, i + 1)
    }
}

/// The module and offset of an address.
pub open spec fn place(modules: Seq<Module>, rip: u64) -> (int, u64) {
    located(modules, rip, 0)
}

/// An address lies in the program image.
pub open spec fn in_image(modules: Seq<Module>, rip: u64) -> bool {
    let m = place(modules, rip).0;
    m != 0 && !modules[m - 1].is_lib
}

/// An address lies in a library.
pub open spec fn in_library(modules: Seq<Module>, rip: u64) -> bool {
    let m = place(modules, rip).0;
    m != 0 && modules[m - 1].is_lib
}

/// Offsets in the image of instructions that choose an error report.
pub open spec fn error_site(k: int) -> u64 {
    if k == 0 {
        0x2f01
    } else if k == 1 {
        0x2f9c
    } else if k == 2 {
        0x3112
    } else if k == 3 {
        0x31a4
    } else if k == 4 {
        0x3295
    } else {
        0x5c3e
    }
}

/// Number of error sites.
pub const ERROR_SITES: usize = 6;

fn site(k: usize) -> (r: u64)
    requires
        k < ERROR_SITES,
    ensures
        r == error_site(k as int),
{
    if k == 0 {
        0x2f01
    } else if k == 1 {
        0x2f9c
    } else if k == 2 {
        0x3112
    } else if k == 3 {
        0x31a4
    } else if k == 4 {
        0x3295
    } else {
        0x5c3e
    }
}

/// The lines that lead into position `i`, from `lo` on.
pub open spec fn lead_in(t: Trace, lo: int, hi: int) -> Seq<TraceEvent> {
    Seq::new(
        (hi - lo) as nat,
        |j: int|
            {
                let (m, off) = place(t.modules, t.recent[lo + j]);
                TraceEvent::Into { module: m as usize, offset: off }
            },
    )
}

/// Where the lines that lead into position `i` start.
pub open spec fn lead_start(i: int) -> int {
    if i >= 120 {
        i - 120
    } else {
        0
    }
}

/// The report on position `i` for the first `k` error sites.
pub open spec fn site_lines(t: Trace, i: int, k: int) -> Seq<TraceEvent>
    decreases k,
{
    if k <= 0 {
        Seq::empty()
    } else {
        let (m, off) = place(t.modules, t.recent[i]);
        let s = error_site(k - 1);
        let before = site_lines(t, i, k - 1);
        if s <= off < s + 8 {
            before + (seq![
                TraceEvent::Decision {
                    module: m as usize,
                    offset: off,
                    back: (t.recent.len() - 1 - i) as usize,
                },
            ] + lead_in(t, lead_start(i), i + 1))
        } else {
            before
        }
    }
}

/// The report on the first `n` positions.
pub open spec fn decision_lines(t: Trace, n: int) -> Seq<TraceEvent>
    decreases n,
{
    if n <= 0 {
        Seq::empty()
    } else {
        let before = decision_lines(t, n - 1);
        if in_image(t.modules, t.recent[n - 1]) {
            before + site_lines(t, n - 1, ERROR_SITES as int)
        } else {
            before
        }
    }
}

/// The last instructions, from position `lo` on.
pub open spec fn tail_lines(t: Trace, lo: int) -> Seq<TraceEvent> {
    Seq::new(
        (t.recent.len() - lo) as nat,
        |j: int|
            {
                let (m, off) = place(t.modules, t.recent[lo + j]);
                TraceEvent::Last { module: m as usize, offset: off }
            },
    )
}

/// Instructions the tail of a backtrace holds.
pub open spec fn tail_count(n: int) -> int {
    if n > 24 {
        24
    } else {
        n
    }
}

/// A backtrace: the known error decisions, then the last instructions.
pub open spec fn backtrace(t: Trace) -> Seq<TraceEvent> {
    let n = t.recent.len() as int;
    seq![TraceEvent::Backtrace { scanned: n as usize }] + decision_lines(t, n) + seq![
        TraceEvent::Tail { count: tail_count(n) as usize },
    ] + tail_lines(t, n - tail_count(n))
}

/// The recent addresses with one more.
pub open spec fn remembered(recent: Seq<u64>, rip: u64) -> Seq<u64> {
    if recent.len() < RECENT {
        recent.push(rip)
    } else {
        recent.skip(1).push(rip)
    }
}

/// Nothing is armed.
pub open spec fn quiet(r: DebugRegisters) -> DebugRegisters {
    DebugRegisters { dr6: 0, dr7: 0, ..r }
}

/// A frame with the trap flag cleared.
pub open spec fn run_free(f: KtrapFrame) -> KtrapFrame {
    KtrapFrame { rflags: f.rflags & !RFLAGS_TF, ..f }
}

/// A frame with the trap flag set.
pub open spec fn step_on(f: KtrapFrame) -> KtrapFrame {
    KtrapFrame { rflags: f.rflags | RFLAGS_TF, ..f }
}

/// What a debug exception does.
#[verifier::ext_equal]
pub struct Step {
    pub trace: Trace,
    pub frame: KtrapFrame,
    pub regs: DebugRegisters,
    pub events: Seq<TraceEvent>,
}

/// A library call has come back to its return address.
pub open spec fn returned(t: Trace, f: KtrapFrame, r: DebugRegisters) -> Step {
    let ret = seq![TraceEvent::Return { rax: f.rax }];
    let t1 = Trace { lib_ret: 0, in_lib: false, ..t };
    let regs = DebugRegisters { dr0: 0, dr6: 0, dr7: 0 };
    if t.budget == 0 {
        Step {
            trace: Trace { tracing: false, ..t1 },
            frame: run_free(f),
            regs,
            events: ret.push(TraceEvent::Ended { steps: t.steps }),
        }
    } else {
        Step { trace: t1, frame: step_on(f), regs, events: ret }
    }
}

/// The end of a step: stop when the budget is used up.
pub open spec fn budgeted(t: Trace, f: KtrapFrame, r: DebugRegisters, events: Seq<TraceEvent>) -> Step {
    if t.budget == 0 {
        Step {
            trace: Trace { tracing: false, ..t },
            frame: run_free(f),
            regs: DebugRegisters { dr7: 0, ..r },
            events: events.push(TraceEvent::Ended { steps: t.steps }),
        }
    } else {
        Step {
            trace: Trace { budget: (t.budget - 1) as u64, ..t },
            frame: step_on(f),
            regs: r,
            events,
        }
    }
}

/// A single step in user mode; `ret` is the word on top of the user stack, if it
/// can be read.
pub open spec fn stepped(t0: Trace, f: KtrapFrame, r: DebugRegisters, ret: Option<u64>) -> Step {
    let image = in_image(t0.modules, f.rip);
    let lib = in_library(t0.modules, f.rip);
    let t = Trace {
        steps: (t0.steps + 1) as u64,
        recent: if image {
            remembered(t0.recent, f.rip)
        } else {
            t0.recent
        },
        ..t0
    };
    if lib && !t.in_lib {
        let (m, off) = place(t.modules, f.rip);
        let call = seq![
            TraceEvent::Call {
                module: m as usize,
                offset: off,
                rcx: f.rcx,
                rdx: f.rdx,
                r8: f.r8,
                r9: f.r9,
            },
        ];
        let fires = t.trigger_rdx != 0 && f.rdx == t.trigger_rdx && !t.triggered;
        let t1 = Trace { in_lib: true, triggered: t.triggered || fires, ..t };
        let events = if fires {
            call + backtrace(t1)
        } else {
            call
        };
        match ret {
            Some(a) => if in_image(t.modules, a) {
                Step {
                    trace: Trace { lib_ret: a, ..t1 },
                    frame: run_free(f),
                    regs: DebugRegisters { dr0: a, dr6: 0, dr7: 1 },
                    events,
                }
            } else {
                budgeted(t1, f, r, events)
            },
            None => budgeted(t1, f, r, events),
        }
    } else if !lib && t.in_lib {
        budgeted(
            Trace { in_lib: false, ..t },
            f,
            r,
            seq![TraceEvent::Return { rax: f.rax }],
        )
    } else {
        budgeted(t, f, r, Seq::empty())
    }
}

/// A debug exception: a stray one disarms everything, a hit of the return
/// breakpoint ends a library call, anything else is a single step.
pub open spec fn debug_exception(
    t: Trace,
    f: KtrapFrame,
    r: DebugRegisters,
    ret: Option<u64>,
) -> Step {
    if !t.tracing {
        Step { trace: t, frame: run_free(f), regs: quiet(r), events: Seq::empty() }
    } else if t.lib_ret != 0 && r.dr6 % 2 == 1 {
        returned(t, f, r)
    } else {
        stepped(t, f, r, ret)
    }
}

/// The word on top of the user stack, if it can be read.
pub open spec fn stack_word(mmu: &Mmu, db: &VadDatabase, rsp: u64) -> Option<u64> {
    match probed(mmu, db, rsp, 8, 8) {
        Err(_) => None,
        Ok(_) => match user_bytes(mmu.ram(), mmu.root(), rsp, 8) {
            Some(b) => Some(get64(b, 0) as u64),
            None => None,
        },
    }
}

impl View for DebugState {
    type V = Trace;

    open spec fn view(&self) -> Trace {
        Trace {
            armed: self.armed,
            tracing: self.tracing,
            budget: self.budget,
            steps: self.steps,
            in_lib: self.in_lib,
            modules: self.modules@,
            recent: self.recent_list(),
            trigger_rdx: self.trigger_rdx,
            triggered: self.triggered,
            lib_ret: self.lib_ret,
        }
    }
}

impl DebugState {
    /// Position in the ring of the `i`-th recent address.
    pub open spec fn ring_at(&self, i: int) -> int {
        (self.recent_head + RECENT - self.recent_count + i) % (RECENT as int)
    }

    /// The recent addresses, oldest first.
    pub open spec fn recent_list(&self) -> Seq<u64> {
        Seq::new(self.recent_count as nat, |i: int| self.recent@[self.ring_at(i)])
    }

    /// The ring is whole and no module wraps around.
    pub open spec fn wf(&self) -> bool {
        &&& self.recent@.len() == RECENT
        &&& self.recent_head < RECENT
        &&& self.recent_count <= RECENT
        &&& self.modules@.len() <= MAX_MODULES
        &&& forall|i: int|
            0 <= i < self.modules@.len() ==> (#[trigger] self.modules@[i]).base
                + self.modules@[i].size <= u64::MAX
    }

    /// A tracer at rest.
    pub fn new() -> (d: Self)
        ensures
            d.wf(),
            d@ == (Trace {
                armed: false,
                tracing: false,
                budget: 0,
                steps: 0,
                in_lib: false,
                modules: Seq::empty(),
                recent: Seq::empty(),
                trigger_rdx: 0,
                triggered: false,
                lib_ret: 0,
            }),
    {
        let d = DebugState {
            armed: false,
            tracing: false,
            budget: 0,
            steps: 0,
            in_lib: false,
            modules: Vec::new(),
            recent: vec![0u64; RECENT],
            recent_head: 0,
            recent_count: 0,
            trigger_rdx: 0,
            triggered: false,
            lib_ret: 0,
        };
        assert(d.recent_list() =~= Seq::<u64>::empty());
        assert(d.modules@ =~= Seq::<Module>::empty());
        d
    }

    /// The name of a module as reported, `?` for none.
    pub fn module_name(&self, module: usize) -> (name: &'static str)
        ensures
            name@ == if 1 <= module <= self.modules@.len() {
                self.modules@[module - 1].name@
            } else {
                "?"@
            },
    {
        if module >= 1 && module <= self.modules.len() {
            self.modules[module - 1].name
        } else {
            "?"
        }
    }

    /// The module and offset of an address.
    fn resolve(&self, rip: u64) -> (r: (usize, u64))
        requires
            self.wf(),
        ensures
            r.0 == place(self.modules@, rip).0,
            r.1 == place(self.modules@, rip).1,
            r.0 <= self.modules@.len(),
    {
        let mut i: usize = 0;
        while i < self.modules.len()
            invariant
                self.wf(),
                i <= self.modules@.len(),
                place(self.modules@, rip) == located(self.modules@, rip, i as int),
            decreases self.modules@.len() - i,
        {
            let m = self.modules[i];
            if rip >= m.base && rip < m.base + m.size {
                return (i + 1, rip - m.base);
            }
            i = i + 1;
        }
        (0, rip)
    }

    /// The `i`-th recent address.
    fn recent_at(&self, i: usize) -> (rip: u64)
        requires
            self.wf(),
            i < self.recent_count,
        ensures
            rip == self@.recent[i as int],
    {
        self.recent[(self.recent_head + RECENT - self.recent_count + i) % RECENT]
    }

    /// Remember an address.
    fn remember(&mut self, rip: u64)
        requires
            old(self).wf(),
        ensures
            final(self).wf(),
            final(self)@ == (Trace { recent: remembered(old(self)@.recent, rip), ..old(self)@ }),
    {
        let ghost before = *self;
        let head: usize = self.recent_head;
        self.recent.set(head, rip);
        self.recent_head = (head + 1) % RECENT;
        if self.recent_count < RECENT {
            self.recent_count = self.recent_count + 1;
        }
        proof {
            let want = remembered(before.recent_list(), rip);
            let got = self.recent_list();
            assert forall|i: int| 0 <= i < got.len() implies got[i] == want[i] by {
                lemma_ring(before, *self, rip, i);
            }
            assert(got =~= want);
        }
    }

    /// The lines that lead into position `hi - 1`.
    fn push_lead_in(&self, out: &mut Vec<TraceEvent>, lo: usize, hi: usize)
        requires
            self.wf(),
            lo <= hi <= self.recent_count,
        ensures
            final(out)@ == old(out)@ + lead_in(self@, lo as int, hi as int),
    {
        let ghost before = out@;
        let mut j: usize = lo;
        assert(out@ =~= before + lead_in(self@, lo as int, lo as int));
        while j < hi
            invariant
                self.wf(),
                lo <= j <= hi <= self.recent_count,
                out@ == before + lead_in(self@, lo as int, j as int),
            decreases hi - j,
        {
            let (m, off) = self.resolve(self.recent_at(j));
            out.push(TraceEvent::Into { module: m, offset: off });
            assert(out@ =~= before + lead_in(self@, lo as int, j + 1));
            j = j + 1;
        }
    }

    /// The report on one position.
    fn push_sites(&self, out: &mut Vec<TraceEvent>, i: usize)
        requires
            self.wf(),
            i < self.recent_count,
        ensures
            final(out)@ == old(out)@ + site_lines(self@, i as int, ERROR_SITES as int),
    {
        let ghost before = out@;
        let (m, off) = self.resolve(self.recent_at(i));
        let mut k: usize = 0;
        assert(out@ =~= before + site_lines(self@, i as int, 0));
        while k < ERROR_SITES
            invariant
                self.wf(),
                i < self.recent_count,
                k <= ERROR_SITES,
                m == place(self@.modules, self@.recent[i as int]).0,
                off == place(self@.modules, self@.recent[i as int]).1,
                out@ == before + site_lines(self@, i as int, k as int),
            decreases ERROR_SITES - k,
        {
            let s: u64 = site(k);
            let ghost part = out@;
            if off >= s && off < s + 8 {
                out.push(
                    TraceEvent::Decision {
                        module: m,
                        offset: off,
                        back: self.recent_count - 1 - i,
                    },
                );
                let lo: usize = if i >= 120 {
                    i - 120
                } else {
                    0
                };
                self.push_lead_in(out, lo, i + 1);
            }
            assert(out@ =~= before + site_lines(self@, i as int, k + 1));
            k = k + 1;
        }
    }

    /// The backtrace.
    fn dump_backtrace(&self, out: &mut Vec<TraceEvent>)
        requires
            self.wf(),
        ensures
            final(out)@ == old(out)@ + backtrace(self@),
    {
        let ghost before = out@;
        let n: usize = self.recent_count;
        out.push(TraceEvent::Backtrace { scanned: n });
        let ghost head = out@;
        let mut i: usize = 0;
        assert(out@ =~= head + decision_lines(self@, 0));
        while i < n
            invariant
                self.wf(),
                n == self.recent_count,
                i <= n,
                out@ == head + decision_lines(self@, i as int),
            decreases n - i,
        {
            let (m, off) = self.resolve(self.recent_at(i));
            let ghost part = out@;
            if m != 0 && !self.modules[m - 1].is_lib {
                self.push_sites(out, i);
            }
            assert(out@ =~= head + decision_lines(self@, i + 1));
            i = i + 1;
        }
        let tail: usize = if n > 24 {
            24
        } else {
            n
        };
        out.push(TraceEvent::Tail { count: tail });
        let ghost lead = out@;
        let lo: usize = n - tail;
        let mut j: usize = lo;
        let ghost lines = tail_lines(self@, lo as int);
        assert(out@ =~= lead + lines.take(0));
        while j < n
            invariant
                self.wf(),
                n == self.recent_count,
                lo <= j <= n,
                lines == tail_lines(self@, lo as int),
                out@ == lead + lines.take(j - lo),
            decreases n - j,
        {
            let (m, off) = self.resolve(self.recent_at(j));
            out.push(TraceEvent::Last { module: m, offset: off });
            assert(lines[j - lo] == (TraceEvent::Last { module: m, offset: off }));
            assert(out@ =~= lead + lines.take(j + 1 - lo));
            j = j + 1;
        }
        assert(lines.take(n - lo) =~= lines);
        assert(out@ =~= before + backtrace(self@));
    }
}

proof fn lemma_ring(a: DebugState, b: DebugState, rip: u64, i: int)
    requires
        a.wf(),
        b.recent@ == a.recent@.update(a.recent_head as int, rip),
        b.recent_head == (a.recent_head + 1) % (RECENT as int),
        b.recent_count == if a.recent_count < RECENT {
            a.recent_count + 1
        } else {
            a.recent_count as int
        },
        0 <= i < b.recent_count,
    ensures
        b.recent_list()[i] == remembered(a.recent_list(), rip)[i],
{
    let h = a.recent_head as int;
    let n = a.recent_count as int;
    let shift: int = if n < RECENT {
        0
    } else {
        1
    };
    if i == b.recent_count - 1 {
        assert(b.ring_at(i) == h);
    } else {
        assert(b.ring_at(i) == a.ring_at(i + shift));
        assert(a.ring_at(i + shift) != h);
    }
}

/// Register an address range so that the tracer can tell where it is. Beyond the
/// capacity it is ignored.
pub fn add_module(d: &mut DebugState, name: &'static str, base: u64, size: u64, is_lib: bool)
    requires
        old(d).wf(),
        base + size <= u64::MAX,
    ensures
        final(d).wf(),
        final(d)@ == (Trace {
            modules: if old(d)@.modules.len() < MAX_MODULES {
                old(d)@.modules.push(Module { name, base, size, is_lib })
            } else {
                old(d)@.modules
            },
            ..old(d)@
        }),
{
    if d.modules.len() < MAX_MODULES {
        d.modules.push(Module { name, base, size, is_lib });
    }
    assert(d.recent_list() =~= old(d).recent_list());
}

/// Forget all modules.
pub fn clear_modules(d: &mut DebugState)
    requires
        old(d).wf(),
    ensures
        final(d).wf(),
        final(d)@ == (Trace { modules: Seq::empty(), ..old(d)@ }),
{
    d.modules = Vec::new();
    assert(d.recent_list() =~= old(d).recent_list());
    assert(d.modules@ =~= Seq::<Module>::empty());
}

/// The tracer armed afresh.
pub open spec fn rearmed(t: Trace, budget: u64, trigger_rdx: u64) -> Trace {
    Trace {
        armed: true,
        tracing: false,
        budget,
        steps: 0,
        in_lib: false,
        recent: Seq::empty(),
        trigger_rdx,
        triggered: false,
        lib_ret: 0,
        modules: t.modules,
    }
}

/// Arm tracing for up to `budget` instructions of the next thread that enters
/// user mode.
pub fn arm(d: &mut DebugState, regs: &mut DebugRegisters, budget: u64)
    requires
        old(d).wf(),
    ensures
        final(d).wf(),
        final(d)@ == rearmed(old(d)@, budget, 0),
        *final(regs) == quiet(*old(regs)),
{
    arm_with_trigger(d, regs, budget, 0);
}

/// Arm tracing, with a value in RDX at which a backtrace is reported.
pub fn arm_with_trigger(
    d: &mut DebugState,
    regs: &mut DebugRegisters,
    budget: u64,
    trigger_rdx: u64,
)
    requires
        old(d).wf(),
    ensures
        final(d).wf(),
        final(d)@ == rearmed(old(d)@, budget, trigger_rdx),
        *final(regs) == quiet(*old(regs)),
{
    d.armed = true;
    d.tracing = false;
    d.budget = budget;
    d.steps = 0;
    d.in_lib = false;
    d.recent_head = 0;
    d.recent_count = 0;
    d.trigger_rdx = trigger_rdx;
    d.triggered = false;
    d.lib_ret = 0;
    regs.dr7 = 0;
    regs.dr6 = 0;
    assert(d.recent_list() =~= Seq::<u64>::empty());
}

/// Consume the armed flag on entry to user mode: whether the trap flag is to be
/// set.
pub fn take_armed(d: &mut DebugState) -> (tf: bool)
    requires
        old(d).wf(),
    ensures
        final(d).wf(),
        tf == old(d)@.armed,
        final(d)@ == (Trace {
            armed: false,
            tracing: old(d)@.tracing || old(d)@.armed,
            ..old(d)@
        }),
{
    let ghost before = *d;
    if d.armed {
        d.armed = false;
        d.tracing = true;
        assert(d.recent_list() =~= before.recent_list());
        true
    } else {
        false
    }
}

fn read_stack_word(mmu: &Mmu, db: &VadDatabase, rsp: u64) -> (r: Option<u64>)
    requires
        db.wf(),
    ensures
        r == stack_word(mmu, db, rsp),
{
    proof {
        lemma_small_powers();
    }
    if probe_for_read(mmu, db, rsp, 8, 8).is_err() {
        return None;
    }
    match read_user(mmu, rsp, 8) {
        Some(b) => u64le(&b, 0),
        None => None,
    }
}

/// The debug-exception handler.
pub fn on_single_step(
    d: &mut DebugState,
    frame: &mut KtrapFrame,
    regs: &mut DebugRegisters,
    mmu: &Mmu,
    db: &VadDatabase,
) -> (events: Vec<TraceEvent>)
    requires
        old(d).wf(),
        old(d)@.steps < u64::MAX,
        db.wf(),
    ensures
        final(d).wf(),
        ({
            let s = debug_exception(
                old(d)@,
                *old(frame),
                *old(regs),
                stack_word(mmu, db, old(frame).rsp),
            );
            &&& final(d)@ == s.trace
            &&& *final(frame) == s.frame
            &&& *final(regs) == s.regs
            &&& events@ == s.events
        }),
{
    let ghost t0 = d@;
    let ghost f0 = *frame;
    let ghost r0 = *regs;
    let ghost word = stack_word(mmu, db, f0.rsp);
    let mut events: Vec<TraceEvent> = Vec::new();
    assert(events@ =~= Seq::<TraceEvent>::empty());
    if !d.tracing {
        frame.rflags = frame.rflags & !RFLAGS_TF;
        regs.dr7 = 0;
        regs.dr6 = 0;
        return events;
    }
    if d.lib_ret != 0 && regs.dr6 % 2 == 1 {
        regs.dr7 = 0;
        regs.dr0 = 0;
        regs.dr6 = 0;
        d.lib_ret = 0;
        d.in_lib = false;
        events.push(TraceEvent::Return { rax: frame.rax });
        if d.budget == 0 {
            d.tracing = false;
            frame.rflags = frame.rflags & !RFLAGS_TF;
            events.push(TraceEvent::Ended { steps: d.steps });
        } else {
            frame.rflags = frame.rflags | RFLAGS_TF;
        }
        proof {
            let s = returned(t0, f0, r0);
            assert(d@.recent =~= t0.recent);
            assert(d@ =~= s.trace);
            assert(events@ =~= s.events);
        }
        return events;
    }
    d.steps = d.steps + 1;
    let (m, off) = d.resolve(frame.rip);
    let lib: bool = m != 0 && d.modules[m - 1].is_lib;
    let image: bool = m != 0 && !d.modules[m - 1].is_lib;
    assert(d@.recent =~= t0.recent);
    if image {
        d.remember(frame.rip);
    }
    let ghost t = Trace {
        steps: (t0.steps + 1) as u64,
        recent: if image {
            remembered(t0.recent, f0.rip)
        } else {
            t0.recent
        },
        ..t0
    };
    assert(d@ =~= t);
    if lib && !d.in_lib {
        events.push(
            TraceEvent::Call {
                module: m,
                offset: off,
                rcx: frame.rcx,
                rdx: frame.rdx,
                r8: frame.r8,
                r9: frame.r9,
            },
        );
        let fires: bool = d.trigger_rdx != 0 && frame.rdx == d.trigger_rdx && !d.triggered;
        d.in_lib = true;
        if fires {
            d.triggered = true;
        }
        let ghost t1 = Trace { in_lib: true, triggered: t.triggered || fires, ..t };
        proof {
            assert(d@.recent =~= t.recent);
            assert(d@ =~= t1);
        }
        if fires {
            d.dump_backtrace(&mut events);
        }
        let ghost told = events@;
        match read_stack_word(mmu, db, frame.rsp) {
            Some(ret) => {
                let (ri, _) = d.resolve(ret);
                if ri != 0 && !d.modules[ri - 1].is_lib {
                    d.lib_ret = ret;
                    regs.dr6 = 0;
                    regs.dr0 = ret;
                    regs.dr7 = 1;
                    frame.rflags = frame.rflags & !RFLAGS_TF;
                    proof {
                        assert(d@.recent =~= t1.recent);
                        assert(d@ =~= Trace { lib_ret: ret, ..t1 });
                        assert(in_image(t.modules, ret));
                    }
                    return events;
                }
                assert(!in_image(t.modules, ret));
            },
            None => {},
        }
    } else if !lib && d.in_lib {
        events.push(TraceEvent::Return { rax: frame.rax });
        d.in_lib = false;
        proof {
            assert(d@.recent =~= t.recent);
            assert(events@ =~= seq![TraceEvent::Return { rax: f0.rax }]);
        }
    }
    let ghost tn = d@;
    let ghost en = events@;
    if d.budget == 0 {
        d.tracing = false;
        frame.rflags = frame.rflags & !RFLAGS_TF;
        regs.dr7 = 0;
        events.push(TraceEvent::Ended { steps: d.steps });
    } else {
        d.budget = d.budget - 1;
        frame.rflags = frame.rflags | RFLAGS_TF;
    }
    proof {
        let s = budgeted(tn, f0, r0, en);
        assert(d@.recent =~= tn.recent);
        assert(d@ =~= s.trace);
        assert(*frame == s.frame);
        assert(*regs == s.regs);
        assert(s == stepped(t0, f0, r0, word));
    }
    events
}

/// The breakpoint handler: where the breakpoint instruction stood.
pub fn on_breakpoint(d: &DebugState, frame: &KtrapFrame) -> (e: TraceEvent)
    requires
        d.wf(),
    ensures
        ({
            let at = if frame.rip == 0 {
                u64::MAX
            } else {
                (frame.rip - 1) as u64
            };
            let (m, off) = place(d.modules@, at);
            e == (TraceEvent::Breakpoint { module: m as usize, offset: off, rip: frame.rip })
        }),
{
    let (m, off) = d.resolve(frame.rip.wrapping_sub(1));
    TraceEvent::Breakpoint { module: m, offset: off, rip: frame.rip }
}

// ---------------------------------------------------------------------------
// Laws
// ---------------------------------------------------------------------------
/// While a library call runs free, nothing but its return breakpoint is armed;
/// when it comes back the call is reported finished, exactly once.
pub proof fn a_library_call_is_stepped_over(
    t: Trace,
    f: KtrapFrame,
    r: DebugRegisters,
    a: u64,
    back: KtrapFrame,
)
    requires
        t.tracing,
        t.lib_ret == 0,
        !t.in_lib,
        in_library(t.modules, f.rip),
        in_image(t.modules, a),
        a != 0,
        t.budget > 0,
    ensures
        ({
            let s = debug_exception(t, f, r, Some(a));
            let hit = DebugRegisters { dr6: 1, ..s.regs };
            let b = debug_exception(s.trace, back, hit, None);
            &&& s.frame == run_free(f)
            &&& s.regs == (DebugRegisters { dr0: a, dr6: 0, dr7: 1 })
            &&& s.trace.lib_ret == a
            &&& b.events == seq![TraceEvent::Return { rax: back.rax }]
            &&& b.trace == (Trace { lib_ret: 0, in_lib: false, ..s.trace })
            &&& b.frame == step_on(back)
            &&& b.regs.dr7 == 0
        }),
{
}

/// Steps that stay on one side are silent and use up the budget one by one; when
/// it is gone tracing stops.
pub proof fn tracing_ends_with_its_budget(t: Trace, f: KtrapFrame, r: DebugRegisters, ret: Option<u64>)
    requires
        t.tracing,
        t.lib_ret == 0,
        t.in_lib == in_library(t.modules, f.rip),
    ensures
        ({
            let s = debug_exception(t, f, r, ret);
            if t.budget == 0 {
                !s.trace.tracing && s.events == seq![TraceEvent::Ended { steps: s.trace.steps }]
                    && s.frame == run_free(f)
            } else {
                s.trace.tracing && s.trace.budget == t.budget - 1 && s.events.len() == 0
                    && s.frame == step_on(f)
            }
        }),
{
    let s = debug_exception(t, f, r, ret);
    if t.budget == 0 {
        assert(s.events =~= seq![TraceEvent::Ended { steps: s.trace.steps }]);
    }
}

/// An address is told by the first module that holds it and its distance from that module's
/// base; one that no module holds is told as it is.
pub proof fn an_address_is_told_by_its_module(modules: Seq<Module>, rip: u64, k: int, i: int)
    requires
        0 <= i <= k <= modules.len(),
        forall|j: int|
            i <= j < k ==> !((#[trigger] modules[j]).base <= rip < modules[j].base
                + modules[j].size),
        k < modules.len() ==> modules[k].base <= rip < modules[k].base + modules[k].size,
    ensures
        k < modules.len() ==> located(modules, rip, i) == (k + 1, (rip - modules[k].base) as u64),
        k == modules.len() ==> located(modules, rip, i) == (0int, rip),
    decreases k - i,
{
    if i < k {
        assert(!(modules[i].base <= rip < modules[i].base + modules[i].size));
        an_address_is_told_by_its_module(modules, rip, k, i + 1);
    }
}

/// The last 4096 addresses are remembered: a new one comes last, and the oldest goes when
/// there is no room.
pub proof fn the_oldest_address_is_forgotten(recent: Seq<u64>, rip: u64)
    requires
        recent.len() <= 4096,
    ensures
        remembered(recent, rip).last() == rip,
        remembered(recent, rip).len() <= 4096,
        recent.len() < 4096 ==> remembered(recent, rip) == recent.push(rip),
        recent.len() == 4096 ==> remembered(recent, rip) == recent.skip(1).push(rip),
{
}

/// Stepping is turned on and off by bit eight of the flags.
pub proof fn bit_eight_turns_stepping_on(f: KtrapFrame)
    ensures
        step_on(f).rflags & 0x100 != 0,
        run_free(f).rflags & 0x100 == 0,
        step_on(f).rflags & 0x200 == f.rflags & 0x200,
        run_free(f).rflags & 0x200 == f.rflags & 0x200,
        step_on(f).rip == f.rip,
        run_free(f).rip == f.rip,
{
    let x = f.rflags;
    assert((x | 0x100) & 0x100 != 0 && (x & !0x100u64) & 0x100 == 0 && (x | 0x100) & 0x200 == x
        & 0x200 && (x & !0x100u64) & 0x200 == x & 0x200) by (bit_vector);
}

/// A program that is not traced runs on freely, and its debug registers are cleared.
pub proof fn what_is_not_traced_runs_on(
    t: Trace,
    f: KtrapFrame,
    r: DebugRegisters,
    ret: Option<u64>,
)
    requires
        !t.tracing,
    ensures
        ({
            let s = debug_exception(t, f, r, ret);
            &&& s.trace == t
            &&& s.frame == run_free(f)
            &&& s.regs.dr6 == 0
            &&& s.regs.dr7 == 0
            &&& s.events.len() == 0
        }),
{
}

/// Every step is counted and takes one of the budget.
pub proof fn a_step_takes_one_of_the_budget(
    t: Trace,
    f: KtrapFrame,
    r: DebugRegisters,
    ret: Option<u64>,
)
    requires
        t.tracing,
        t.lib_ret == 0,
        t.budget > 0,
        t.steps < u64::MAX,
        !in_library(t.modules, f.rip),
    ensures
        ({
            let s = debug_exception(t, f, r, ret);
            &&& s.trace.steps == t.steps + 1
            &&& s.trace.budget == t.budget - 1
            &&& s.frame == step_on(f)
            &&& s.events.len() == if t.in_lib {
                1int
            } else {
                0
            }
            &&& in_image(t.modules, f.rip) ==> s.trace.recent.last() == f.rip
            &&& !in_image(t.modules, f.rip) ==> s.trace.recent == t.recent
        }),
{
}

/// A backtrace ends with the last addresses, 24 at most, oldest first, and tells a decision
/// with what led to it, 120 addresses at most.
pub proof fn a_backtrace_ends_with_the_last_addresses(t: Trace, j: int)
    requires
        0 <= j < 24,
        j < t.recent.len(),
    ensures
        ({
            let b = backtrace(t);
            let n = t.recent.len() as int;
            let (m, off) = place(t.modules, t.recent[n - 1 - j]);
            &&& b[0] == (TraceEvent::Backtrace { scanned: n as usize })
            &&& b[b.len() - 1 - j] == (TraceEvent::Last { module: m as usize, offset: off })
        }),
        lead_start(j) == 0,
        lead_start(120 + j) == j,
{
    let n = t.recent.len() as int;
    let c = tail_count(n);
    let tail = tail_lines(t, n - c);
    let b = backtrace(t);
    assert(tail.len() == c);
    assert(b[b.len() - 1 - j] == tail[c - 1 - j]);
}

/// A decision is told where an address lies within eight bytes of a known site, with how far
/// back it was and what led to it; elsewhere nothing is told.
pub proof fn decisions_are_told_at_known_sites(t: Trace, i: int, off: u64, m: int)
    requires
        0 <= i < t.recent.len(),
        place(t.modules, t.recent[i]) == (m, off),
    ensures
        ({
            let near = 0x2f01 <= off < 0x2f09 || 0x2f9c <= off < 0x2fa4 || 0x3112 <= off < 0x311a
                || 0x31a4 <= off < 0x31ac || 0x3295 <= off < 0x329d || 0x5c3e <= off < 0x5c46;
            site_lines(t, i, 6) == if near {
                seq![
                    TraceEvent::Decision {
                        module: m as usize,
                        offset: off,
                        back: (t.recent.len() - 1 - i) as usize,
                    },
                ] + lead_in(
                    t,
                    if i >= 120 {
                        i - 120
                    } else {
                        0
                    },
                    i + 1,
                )
            } else {
                Seq::<TraceEvent>::empty()
            }
        }),
{
    let told = seq![
        TraceEvent::Decision {
            module: m as usize,
            offset: off,
            back: (t.recent.len() - 1 - i) as usize,
        },
    ] + lead_in(t, lead_start(i), i + 1);
    assert(Seq::<TraceEvent>::empty() + told =~= told);
    reveal_with_fuel(site_lines, 7);
}

/// What led to a decision is told address by address, oldest first.
pub proof fn what_led_to_it_is_told_in_order(t: Trace, lo: int, hi: int, j: int)
    requires
        0 <= lo <= hi <= t.recent.len(),
        0 <= j < hi - lo,
    ensures
        lead_in(t, lo, hi).len() == hi - lo,
        lead_in(t, lo, hi)[j] == (TraceEvent::Into {
            module: place(t.modules, t.recent[lo + j]).0 as usize,
            offset: place(t.modules, t.recent[lo + j]).1,
        }),
{
}

/// The return from a library call is told with its answer; stepping goes on from there while
/// there is budget, and the breakpoint is gone.
pub proof fn a_return_is_told_with_its_answer(
    t: Trace,
    f: KtrapFrame,
    r: DebugRegisters,
    ret: Option<u64>,
)
    requires
        t.tracing,
        t.lib_ret != 0,
        r.dr6 % 2 == 1,
    ensures
        ({
            let s = debug_exception(t, f, r, ret);
            &&& s.events[0] == (TraceEvent::Return { rax: f.rax })
            &&& s.trace.lib_ret == 0
            &&& !s.trace.in_lib
            &&& s.regs == (DebugRegisters { dr0: 0, dr6: 0, dr7: 0 })
            &&& t.budget > 0 ==> s.frame == step_on(f) && s.events.len() == 1 && s.trace.tracing
            &&& t.budget == 0 ==> s.frame == run_free(f) && s.events.len() == 2
                && !s.trace.tracing
        }),
{
}

/// Arming starts over: nothing is counted or remembered yet, and the modules stay.
pub proof fn arming_starts_over(t: Trace, budget: u64, trigger: u64, r: DebugRegisters)
    ensures
        ({
            let a = rearmed(t, budget, trigger);
            &&& a.armed
            &&& !a.tracing
            &&& a.budget == budget
            &&& a.trigger_rdx == trigger
            &&& a.steps == 0
            &&& a.recent.len() == 0
            &&& !a.in_lib
            &&& !a.triggered
            &&& a.lib_ret == 0
            &&& a.modules == t.modules
        }),
        quiet(r).dr0 == r.dr0,
        quiet(r).dr6 == 0,
        quiet(r).dr7 == 0,
{
}

/// The word on top of a program's stack is read only if it is the program's own.
pub proof fn the_top_of_the_stack_is_probed(mmu: &Mmu, db: &VadDatabase, rsp: u64, b: Seq<u8>)
    ensures
        probed(mmu, db, rsp, 8, 8) is Err ==> stack_word(mmu, db, rsp) is None,
        probed(mmu, db, rsp, 8, 8) is Ok && user_bytes(mmu.ram(), mmu.root(), rsp, 8) == Some(b)
            ==> stack_word(mmu, db, rsp) == Some(get64(b, 0) as u64),
{
}

} // verus!
