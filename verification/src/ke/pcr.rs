//! The per-processor control region, and the thread a processor runs.
use crate::ke::irql::Kirql;
use crate::ke::scheduler::{lemma_thread_update, thread_sound, Dispatcher, Sched};
use crate::ke::thread::Kthread;
use vstd::prelude::*;

verus! {

/// Per-processor scheduling state. Threads are named by their place in the
/// dispatcher's table.
#[derive(Debug, Clone, Copy)]
pub struct Kprcb {
    /// The running thread.
    pub current_thread: Option<usize>,
    /// The thread chosen to run next.
    pub next_thread: Option<usize>,
    /// The thread that runs when nothing is ready.
    pub idle_thread: Option<usize>,
    pub number: u32,
    /// A deferred call is queued and not run yet.
    pub dpc_interrupt_requested: bool,
    /// The running thread has used up its quantum.
    pub quantum_end: bool,
}

/// The processor control region, reached through GS.
#[derive(Debug, Clone, Copy)]
pub struct Kpcr {
    /// Its own address.
    pub self_address: u64,
    /// Kernel stack that a service call switches to.
    pub syscall_kernel_stack: u64,
    /// The user stack pointer while a service call switches stacks.
    pub syscall_user_stack: u64,
    /// Shadow of the current level.
    pub irql: Kirql,
    pub prcb: Kprcb,
}

/// Offset of the kernel stack in the control region.
pub const KPCR_SYSCALL_KERNEL_STACK: usize = 8;

/// Offset of the user stack slot in the control region.
pub const KPCR_SYSCALL_USER_STACK: usize = 16;

/// The register that holds the GS base.
pub const IA32_GS_BASE: u32 = 0xC000_0101;

impl Kpcr {
    /// The control region of processor `number` at `address`, with no thread yet.
    pub fn new(address: u64, number: u32) -> (p: Self)
        ensures
            p.self_address == address,
            p.syscall_kernel_stack == 0,
            p.syscall_user_stack == 0,
            p.irql == 0,
            p.prcb.number == number,
            p.prcb.current_thread is None,
            p.prcb.next_thread is None,
            p.prcb.idle_thread is None,
            !p.prcb.dpc_interrupt_requested,
            !p.prcb.quantum_end,
    {
        Kpcr {
            self_address: address,
            syscall_kernel_stack: 0,
            syscall_user_stack: 0,
            irql: 0,
            prcb: Kprcb {
                current_thread: None,
                next_thread: None,
                idle_thread: None,
                number,
                dpc_interrupt_requested: false,
                quantum_end: false,
            },
        }
    }
}

/// `KeGetCurrentPrcb`.
pub fn ke_get_prcb(pcr: &mut Kpcr) -> (prcb: &mut Kprcb)
    ensures
        *prcb == old(pcr).prcb,
        *final(pcr) == (Kpcr { prcb: *final(prcb), ..*old(pcr) }),
{
    &mut pcr.prcb
}

/// Record the kernel stack that a service call switches to.
pub fn set_syscall_kernel_stack(pcr: &mut Kpcr, rsp: u64)
    ensures
        *final(pcr) == (Kpcr { syscall_kernel_stack: rsp, ..*old(pcr) }),
{
    pcr.syscall_kernel_stack = rsp;
}

/// `KeGetCurrentThread`.
pub fn ke_get_current_thread(pcr: &Kpcr) -> (t: Option<usize>)
    ensures
        t == pcr.prcb.current_thread,
{
    pcr.prcb.current_thread
}

/// The two halves in which a model-specific register is written: low, high.
pub fn msr_halves(value: u64) -> (r: (u32, u32))
    ensures
        r.0 == value % 0x1_0000_0000,
        r.1 == value / 0x1_0000_0000,
{
    ((value % 0x1_0000_0000) as u32, (value / 0x1_0000_0000) as u32)
}

/// The value of a model-specific register read in two halves.
pub fn msr_value(low: u32, high: u32) -> (value: u64)
    ensures
        value == low + high * 0x1_0000_0000,
{
    low as u64 + high as u64 * 0x1_0000_0000
}

/// A register value survives being split and joined.
pub proof fn msr_halves_join(value: u64)
    ensures
        value % 0x1_0000_0000 + (value / 0x1_0000_0000) * 0x1_0000_0000 == value,
{
}

/// The state with the running thread replaced.
pub open spec fn with_current(s: Sched, th: Kthread) -> Sched {
    Sched { threads: s.threads.update(s.current as int, th), ..s }
}

/// The running thread.
pub open spec fn current_of(s: Sched) -> Kthread {
    s.threads[s.current as int]
}

/// The running thread.
pub fn current(d: &Dispatcher) -> (th: Kthread)
    requires
        d.wf(),
    ensures
        th == current_of(d@),
        thread_sound(th, d@.objects.len() as int),
{
    proof {
        assert(thread_sound(d@.threads[d@.current as int], d@.objects.len() as int));
    }
    d.threads[d.current]
}

/// Replace the running thread's record by one whose dispatcher entries are sound.
pub fn set_current(d: &mut Dispatcher, th: Kthread)
    requires
        old(d).wf(),
        thread_sound(th, old(d)@.objects.len() as int),
    ensures
        final(d).wf(),
        final(d)@ == with_current(old(d)@, th),
{
    proof {
        lemma_thread_update(d@, d.current, th);
    }
    let cur: usize = d.current;
    d.threads.set(cur, th);
}

/// Changing the running thread changes that thread, and no other.
pub proof fn only_the_running_thread_changes(s: Sched, th: Kthread, t: int)
    requires
        s.current < s.threads.len(),
        0 <= t < s.threads.len(),
    ensures
        current_of(with_current(s, th)) == th,
        t != s.current ==> with_current(s, th).threads[t] == s.threads[t],
        with_current(s, th).current == s.current,
        with_current(s, th).objects == s.objects,
        with_current(s, th).ready == s.ready,
        with_current(s, th).tick == s.tick,
{
}

} // verus!
