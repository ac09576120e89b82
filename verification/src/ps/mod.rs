//! Processes and threads.
//!
//! The factory for kernel threads: a stack and a thread object from the pool, the
//! frame the first switch pops, and an entry in the dispatcher's table. A thread
//! of a process has its address space recorded before it becomes runnable, since
//! another processor may pick it up at once.
use crate::bytes::{bytes64, get64, lemma_bytes64, lemma_get64_in, overlay};
use crate::ke::scheduler::{
    ki_ready_thread, readied, with_thread, Dispatcher, Sched, Spaces, Switch,
};
use crate::ke::signal::{ki_terminate_current_thread, terminated};
use crate::ke::thread::{initial_rsp, new_thread, switch_frame, Kthread, DEFAULT_PRIORITY};
use crate::mm::phys::{keeps_frames, mm_write_physical, PhysState};
use crate::mm::pool::{allocated, allocation_adds_one_block, pool_alloc_checked, Pool, PoolState};
use crate::mm::virt::Mmu;
use crate::mm::PhysAddr;
use crate::rtl::NtStatus;
use vstd::prelude::*;

verus! {

/// Pool tag of thread objects: `Thrd`.
pub const TAG_THREAD: u32 = 0x6472_6854;

/// Pool tag of stacks: `Stak`.
pub const TAG_STACK: u32 = 0x6B61_7453;

/// Size of a kernel stack.
pub const KERNEL_STACK_SIZE: usize = 0x8000;

/// An executive thread.
#[derive(Debug, Clone, Copy, PartialEq, Eq, Structural)]
pub struct Ethread {
    /// Its kernel thread, by its place in the dispatcher's table.
    pub tcb: usize,
    /// Where it starts.
    pub start_address: u64,
    /// Its object in the pool.
    pub object: u64,
}

/// The source of threads.
pub struct ThreadFactory {
    /// The next thread id; ids are multiples of four.
    pub next_id: u64,
    /// Size of a thread object.
    pub object_size: usize,
    /// The routine every thread starts in.
    pub startup: u64,
}

impl ThreadFactory {
    pub fn new(object_size: usize, startup: u64) -> (f: Self)
        ensures
            f.next_id == 4,
            f.object_size == object_size,
            f.startup == startup,
    {
        ThreadFactory { next_id: 4, object_size, startup }
    }
}

/// The id after `id`.
pub open spec fn id_after(id: u64) -> u64 {
    ((id + 4) % 0x1_0000_0000_0000_0000) as u64
}

/// Words in memory, lowest first.
pub open spec fn words_bytes(w: Seq<u64>) -> Seq<u8>
    decreases w.len(),
{
    if w.len() == 0 {
        Seq::empty()
    } else {
        words_bytes(w.drop_last()) + bytes64(w.last())
    }
}

/// The record of a thread that starts at `entry`.
pub open spec fn forged(id: u64, stack: int, offset: u64, cr3: u64) -> Kthread {
    let base = offset + stack;
    let top = base + KERNEL_STACK_SIZE;
    Kthread {
        kernel_rsp: initial_rsp(top as u64) as u64,
        cr3,
        ..new_thread(id, base as u64, top, DEFAULT_PRIORITY)
    }
}

/// What creating a thread does.
#[verifier::ext_equal]
pub struct Creation {
    pub next_id: u64,
    pub pool: PoolState,
    pub mem: PhysState,
    pub sched: Sched,
    pub result: Result<Ethread, NtStatus>,
}

/// Creating a thread that is not runnable yet.
pub open spec fn created(
    f: &ThreadFactory,
    pool: PoolState,
    mem: PhysState,
    s: Sched,
    offset: u64,
    entry: u64,
    context: u64,
    cr3: u64,
) -> Creation {
    let no_memory = Err::<Ethread, NtStatus>(NtStatus(NtStatus::INSUFFICIENT_RESOURCES));
    let (p1, m1, stack) = allocated(pool, mem, KERNEL_STACK_SIZE as int, TAG_STACK);
    match stack {
        None => Creation { next_id: f.next_id, pool: p1, mem: m1, sched: s, result: no_memory },
        Some(stack) => {
            let (p2, m2, object) = allocated(p1, m1, f.object_size as int, TAG_THREAD);
            match object {
                None => Creation {
                    next_id: id_after(f.next_id),
                    pool: p2,
                    mem: m2,
                    sched: s,
                    result: no_memory,
                },
                Some(object) => {
                    let th = forged(f.next_id, stack as int, offset, cr3);
                    let frame = words_bytes(switch_frame(f.startup, entry, context));
                    Creation {
                        next_id: id_after(f.next_id),
                        pool: p2,
                        mem: PhysState {
                            ram: overlay(m2.ram, th.kernel_rsp - offset, frame),
                            ..m2
                        },
                        sched: with_thread(s, th),
                        result: Ok(
                            Ethread {
                                tcb: s.threads.len() as usize,
                                start_address: entry,
                                object,
                            },
                        ),
                    }
                },
            }
        },
    }
}

/// Creating a thread and making it runnable.
pub open spec fn started(
    f: &ThreadFactory,
    pool: PoolState,
    mem: PhysState,
    s: Sched,
    offset: u64,
    entry: u64,
    context: u64,
    cr3: u64,
) -> Creation {
    let c = created(f, pool, mem, s, offset, entry, context, cr3);
    match c.result {
        Ok(t) => Creation { sched: readied(c.sched, t.tcb), ..c },
        Err(_) => c,
    }
}

proof fn lemma_words_len(w: Seq<u64>)
    ensures
        words_bytes(w).len() == 8 * w.len(),
    decreases w.len(),
{
    if w.len() > 0 {
        lemma_words_len(w.drop_last());
        crate::bytes::lemma_bytes64(w.last());
    }
}

fn to_bytes(words: &Vec<u64>) -> (b: Vec<u8>)
    ensures
        b@ == words_bytes(words@),
{
    let mut b: Vec<u8> = Vec::new();
    let mut i: usize = 0;
    assert(words@.take(0) =~= Seq::<u64>::empty());
    assert(b@ =~= words_bytes(words@.take(0)));
    while i < words.len()
        invariant
            i <= words@.len(),
            b@ == words_bytes(words@.take(i as int)),
        decreases words@.len() - i,
    {
        let mut one: Vec<u8> = vec![0u8; 8];
        crate::bytes::put64(&mut one, 0, words[i]);
        proof {
            crate::bytes::lemma_bytes64(words@[i as int]);
            assert(one@ =~= bytes64(words@[i as int]));
            let t = words@.take(i + 1);
            assert(t.drop_last() =~= words@.take(i as int));
            assert(t.last() == words@[i as int]);
        }
        b.append(&mut one);
        i = i + 1;
    }
    assert(words@.take(i as int) =~= words@);
    b
}

/// Create a thread without making it runnable, for a caller that has more of it
/// to set up; [`ps_resume_thread`] lets it go.
pub fn ps_create_system_thread_suspended(
    f: &mut ThreadFactory,
    pool: &mut Pool,
    mmu: &mut Mmu,
    d: &mut Dispatcher,
    entry: u64,
    context: u64,
    cr3: u64,
) -> (r: Result<Ethread, NtStatus>)
    requires
        old(pool).wf(&old(mmu).phys),
        old(pool).allocations <= u64::MAX - 2,
        old(mmu).windowed(),
        old(d).wf(),
    ensures
        final(pool).wf(&final(mmu).phys),
        final(mmu).same_registers(old(mmu)),
        keeps_frames(old(mmu).phys@, final(mmu).phys@),
        final(d).wf(),
        final(f).object_size == old(f).object_size,
        final(f).startup == old(f).startup,
        ({
            let c = created(
                old(f),
                old(pool)@,
                old(mmu).phys@,
                old(d)@,
                old(mmu).window.offset,
                entry,
                context,
                cr3,
            );
            &&& final(f).next_id == c.next_id
            &&& final(pool)@ == c.pool
            &&& final(mmu).phys@ == c.mem
            &&& final(d)@ == c.sched
            &&& r == c.result
        }),
        r matches Ok(t) ==> t.tcb == old(d)@.threads.len() && final(d)@.threads.len() == t.tcb + 1,
{
    let ghost p0 = pool@;
    let ghost m0 = mmu.phys@;
    let ram_len: usize = mmu.phys.ram.len();
    let offset: u64 = mmu.window.offset;
    proof {
        assert(m0.bits.len() * 4096 <= ram_len);
        allocation_adds_one_block(p0, m0, KERNEL_STACK_SIZE as int, TAG_STACK);
    }
    let stack: u64 = match pool_alloc_checked(pool, &mut mmu.phys, KERNEL_STACK_SIZE, TAG_STACK) {
        Ok(p) => p,
        Err(e) => {
            return Err(e);
        },
    };
    let ghost p1 = pool@;
    let ghost m1 = mmu.phys@;
    let ghost block = p1.live.last();
    proof {
        assert(block.at + block.size <= ram_len);
        assert(p1.allocations == p0.allocations + 1);
    }
    let id: u64 = f.next_id;
    f.next_id = id.wrapping_add(4);
    let object: u64 = match pool_alloc_checked(
        pool,
        &mut mmu.phys,
        f.object_size,
        TAG_THREAD,
    ) {
        Ok(p) => p,
        Err(e) => {
            return Err(e);
        },
    };
    let ghost m2 = mmu.phys@;
    let mut th: Kthread = Kthread::new(
        id,
        offset + stack,
        KERNEL_STACK_SIZE,
        DEFAULT_PRIORITY,
    );
    let words: Vec<u64> = th.initialize_stack(f.startup, entry, context);
    th.cr3 = cr3;
    let frame: Vec<u8> = to_bytes(&words);
    proof {
        lemma_words_len(words@);
        let top = offset + stack + KERNEL_STACK_SIZE;
        assert(th.kernel_rsp == initial_rsp(top as u64));
        assert(th.kernel_rsp >= offset + stack);
        assert(th.kernel_rsp - offset + 56 <= ram_len);
    }
    mm_write_physical(&mut mmu.phys, PhysAddr(th.kernel_rsp - offset), &frame);
    let tcb: usize = d.add_thread(th);
    Ok(Ethread { tcb, start_address: entry, object })
}

/// Create a thread with its address space recorded and make it runnable.
pub fn ps_create_system_thread_ex(
    f: &mut ThreadFactory,
    pool: &mut Pool,
    mmu: &mut Mmu,
    d: &mut Dispatcher,
    entry: u64,
    context: u64,
    cr3: u64,
) -> (r: Result<Ethread, NtStatus>)
    requires
        old(pool).wf(&old(mmu).phys),
        old(pool).allocations <= u64::MAX - 2,
        old(mmu).windowed(),
        old(d).wf(),
    ensures
        final(pool).wf(&final(mmu).phys),
        final(mmu).same_registers(old(mmu)),
        final(d).wf(),
        final(f).object_size == old(f).object_size,
        final(f).startup == old(f).startup,
        ({
            let c = started(
                old(f),
                old(pool)@,
                old(mmu).phys@,
                old(d)@,
                old(mmu).window.offset,
                entry,
                context,
                cr3,
            );
            &&& final(f).next_id == c.next_id
            &&& final(pool)@ == c.pool
            &&& final(mmu).phys@ == c.mem
            &&& final(d)@ == c.sched
            &&& r == c.result
        }),
{
    let r = ps_create_system_thread_suspended(f, pool, mmu, d, entry, context, cr3);
    match r {
        Ok(t) => {
            ki_ready_thread(d, t.tcb);
        },
        Err(_) => {},
    }
    r
}

/// `PsCreateSystemThread`: create a kernel thread in the kernel's address space
/// and make it runnable.
pub fn ps_create_system_thread(
    f: &mut ThreadFactory,
    pool: &mut Pool,
    mmu: &mut Mmu,
    d: &mut Dispatcher,
    entry: u64,
    context: u64,
) -> (r: Result<Ethread, NtStatus>)
    requires
        old(pool).wf(&old(mmu).phys),
        old(pool).allocations <= u64::MAX - 2,
        old(mmu).windowed(),
        old(d).wf(),
    ensures
        final(pool).wf(&final(mmu).phys),
        final(mmu).same_registers(old(mmu)),
        final(d).wf(),
        final(f).object_size == old(f).object_size,
        final(f).startup == old(f).startup,
        ({
            let c = started(
                old(f),
                old(pool)@,
                old(mmu).phys@,
                old(d)@,
                old(mmu).window.offset,
                entry,
                context,
                0,
            );
            &&& final(f).next_id == c.next_id
            &&& final(pool)@ == c.pool
            &&& final(mmu).phys@ == c.mem
            &&& final(d)@ == c.sched
            &&& r == c.result
        }),
{
    ps_create_system_thread_ex(f, pool, mmu, d, entry, context, 0)
}

/// Make a thread created suspended runnable.
pub fn ps_resume_thread(d: &mut Dispatcher, t: &Ethread)
    requires
        old(d).wf(),
        t.tcb < old(d)@.threads.len(),
    ensures
        final(d).wf(),
        final(d)@ == readied(old(d)@, t.tcb),
{
    ki_ready_thread(d, t.tcb);
}

/// `PsTerminateSystemThread`: end the current thread. Its stack and object stay:
/// it is standing on them.
pub fn ps_terminate_system_thread(d: &mut Dispatcher, sp: &Spaces) -> (r: Option<Switch>)
    requires
        old(d).wf(),
    ensures
        final(d).wf(),
        (final(d)@, r) == terminated(old(d)@, *sp),
{
    ki_terminate_current_thread(d, sp)
}

/// A started thread is on the ready queue of the default priority, with its
/// address space recorded.
pub proof fn a_started_thread_is_ready(
    f: &ThreadFactory,
    pool: PoolState,
    mem: PhysState,
    s: Sched,
    offset: u64,
    entry: u64,
    context: u64,
    cr3: u64,
)
    requires
        s.ready.len() == crate::ke::ready::PRIORITIES,
        s.threads.len() < usize::MAX,
    ensures
        ({
            let c = started(f, pool, mem, s, offset, entry, context, cr3);
            c.result matches Ok(t) ==> {
                &&& c.sched.threads[t.tcb as int].cr3 == cr3
                &&& c.sched.threads[t.tcb as int].thread_id == f.next_id
                &&& c.sched.threads[t.tcb as int].state == crate::ke::thread::ThreadState::Ready
                &&& c.sched.ready[DEFAULT_PRIORITY as int].last() == t.tcb
            }
        }),
{
}

/// Thread numbers are four apart.
pub proof fn thread_numbers_are_four_apart(id: u64)
    requires
        id <= u64::MAX - 4,
    ensures
        id_after(id) == id + 4,
{
}

/// Words stand in memory one after the other, eight bytes each.
pub proof fn words_stand_in_order(w: Seq<u64>, k: int)
    requires
        0 <= k < w.len(),
    ensures
        words_bytes(w).len() == 8 * w.len(),
        get64(words_bytes(w), 8 * k) == w[k],
    decreases w.len(),
{
    let init = w.drop_last();
    lemma_words_len(init);
    lemma_words_len(w);
    lemma_bytes64(w.last());
    let b = words_bytes(w);
    if k < w.len() - 1 {
        words_stand_in_order(init, k);
        let part = words_bytes(init).subrange(8 * k, 8 * k + 8);
        lemma_get64_in(b, 8 * k, part);
        lemma_get64_in(words_bytes(init), 8 * k, part);
    } else {
        lemma_get64_in(b, 8 * k, bytes64(w.last()));
    }
}

/// A new thread has a stack of 32 KiB, priority 8 and a quantum of ten ticks. Its first
/// switch takes seven words off its stack, which then ends eight bytes off a multiple of
/// sixteen.
pub proof fn a_new_thread_has_a_stack(id: u64, stack: int, offset: u64, cr3: u64)
    requires
        0 <= stack,
        offset + stack + 0x8000 <= u64::MAX,
        (offset + stack) % 16 == 0,
    ensures
        ({
            let t = forged(id, stack, offset, cr3);
            &&& t.stack_base == offset + stack
            &&& t.stack_top == t.stack_base + 0x8000
            &&& t.kernel_rsp + 56 == t.stack_top - 8
            &&& t.priority == 8
            &&& t.quantum == 10
            &&& t.thread_id == id
            &&& t.cr3 == cr3
        }),
{
}

/// The first switch to a thread loads the entry point and the argument into the registers that
/// the startup routine reads, and returns to that routine.
pub proof fn a_new_thread_starts_in_its_startup_routine(startup: u64, entry: u64, context: u64)
    ensures
        ({
            let f = words_bytes(switch_frame(startup, entry, context));
            &&& f.len() == 56
            &&& get64(f, 0) == entry
            &&& get64(f, 8) == context
            &&& get64(f, 48) == startup
        }),
{
    let w = switch_frame(startup, entry, context);
    words_stand_in_order(w, 0);
    words_stand_in_order(w, 1);
    words_stand_in_order(w, 6);
}

/// Without memory for its stack no thread is made and its number is not used up; a thread
/// that is made is told by its place, its entry point and its object.
pub proof fn a_thread_without_a_stack_is_not_made(
    f: &ThreadFactory,
    pool: PoolState,
    mem: PhysState,
    s: Sched,
    offset: u64,
    entry: u64,
    context: u64,
    cr3: u64,
)
    ensures
        ({
            let c = created(f, pool, mem, s, offset, entry, context, cr3);
            let stack = allocated(pool, mem, 0x8000, 0x6B61_7453);
            &&& stack.2 is None ==> c.result == Err::<Ethread, NtStatus>(NtStatus(0xC000_009A))
                && c.next_id == f.next_id && c.sched == s
            &&& c.result matches Ok(t) ==> t.start_address == entry && t.tcb
                == s.threads.len() as usize && c.sched == with_thread(
                s,
                forged(f.next_id, stack.2->0 as int, offset, cr3),
            )
        }),
{
}

} // verus!
