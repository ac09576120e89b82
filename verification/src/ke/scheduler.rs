//! The dispatcher: ready queues, waits, timers and preemption.
//!
//! This is the one place where threads block and wake and where it is decided
//! what runs next. All of it works on one table of threads and dispatcher
//! objects; the caller holds the dispatcher lock. Where the processor has to
//! change threads, the routine returns a [`Switch`] that says how.
use crate::ke::dispatcher::{
    DispatcherHeader, DispatcherObject, DispatcherObjectType, Ktimer,
};
use crate::ke::ready::{highest_ready, next_ready, with_ready, ReadyQueues, PRIORITIES};
use crate::ke::thread::{
    Kthread, KwaitBlock, ThreadState, WaitBlocks, WaitType, DEFAULT_QUANTUM, THREAD_WAIT_OBJECTS,
};
use crate::rtl::NtStatus;
use vstd::prelude::*;

verus! {

/// A thread on an object's wait list. An object's list is the links that name
/// it, oldest first.
#[derive(Debug, Clone, Copy, PartialEq, Eq, Structural)]
pub struct WaitLink {
    pub object: usize,
    pub thread: usize,
}

/// The dispatcher's state.
pub struct Dispatcher {
    pub objects: Vec<DispatcherObject>,
    pub threads: Vec<Kthread>,
    pub ready: ReadyQueues,
    pub links: Vec<WaitLink>,
    /// Armed timers, in the order they were armed.
    pub timers: Vec<usize>,
    /// Clock ticks since boot.
    pub tick: u64,
    /// The earliest deadline of an armed timer, the maximum when there is none.
    pub earliest: u64,
    pub current: usize,
    pub idle: usize,
    /// The running thread has used up its quantum.
    pub quantum_end: bool,
}

/// The abstract dispatcher.
#[verifier::ext_equal]
pub struct Sched {
    pub objects: Seq<DispatcherObject>,
    pub threads: Seq<Kthread>,
    pub ready: Seq<Seq<usize>>,
    pub links: Seq<WaitLink>,
    pub timers: Seq<usize>,
    pub tick: u64,
    pub earliest: u64,
    pub current: usize,
    pub idle: usize,
    pub quantum_end: bool,
}

impl View for Dispatcher {
    type V = Sched;

    open spec fn view(&self) -> Sched {
        Sched {
            objects: self.objects@,
            threads: self.threads@,
            ready: self.ready@,
            links: self.links@,
            timers: self.timers@,
            tick: self.tick,
            earliest: self.earliest,
            current: self.current,
            idle: self.idle,
            quantum_end: self.quantum_end,
        }
    }
}

/// A thread's entries name objects that exist.
pub open spec fn thread_sound(t: Kthread, objects: int) -> bool {
    &&& t.object < objects
    &&& t.timer < objects
    &&& t.priority < PRIORITIES
    &&& t.wait_count <= THREAD_WAIT_OBJECTS
    &&& forall|i: int| 0 <= i < t.wait_count ==> (#[trigger] t.wait_blocks.at(i)).object < objects
            && t.wait_blocks.at(i).wait_key == i
}

/// Every index in the state names something that exists.
pub open spec fn sched_sound(s: Sched) -> bool {
    &&& s.current < s.threads.len()
    &&& s.idle < s.threads.len()
    &&& s.ready.len() == PRIORITIES
    &&& forall|t: int|
        0 <= t < s.threads.len() ==> #[trigger] thread_sound(
            s.threads[t],
            s.objects.len() as int,
        )
    &&& forall|p: int, i: int|
        0 <= p < PRIORITIES && 0 <= i < s.ready[p].len() ==> #[trigger] s.ready[p][i]
            < s.threads.len()
    &&& forall|i: int|
        0 <= i < s.links.len() ==> (#[trigger] s.links[i]).thread < s.threads.len()
            && s.links[i].object < s.objects.len()
    &&& forall|i: int| 0 <= i < s.timers.len() ==> #[trigger] s.timers[i] < s.objects.len()
}

// ---------------------------------------------------------------------------
// Waits
// ---------------------------------------------------------------------------
/// Whether a thread's whole wait can complete now.
#[derive(Debug, Clone, Copy, PartialEq, Eq, Structural)]
pub enum Satisfy {
    NotYet,
    /// The timeout came first.
    Timeout,
    /// The object of this block is signaled.
    Any(usize),
    /// Every object is signaled.
    All,
}

/// Is an object signaled for this thread? The owner of a mutant may always
/// acquire it again.
pub open spec fn signaled_for(objects: Seq<DispatcherObject>, t: usize, o: usize) -> bool {
    let obj = objects[o as int];
    obj.header.signal_state > 0 || (obj.header.object_type == DispatcherObjectType::Mutant
        && obj.owner == Some(t))
}

/// The first signaled object of a thread's wait, from block `i` on.
pub open spec fn first_signaled(s: Sched, t: usize, i: int) -> Option<usize>
    decreases s.threads[t as int].wait_count - i,
{
    let th = s.threads[t as int];
    if i < 0 || i >= th.wait_count {
        None
    } else if signaled_for(s.objects, t, th.wait_blocks.at(i).object) {
        Some(i as usize)
    } else {
        first_signaled(s, t, i + 1)
    }
}

/// Every object of a thread's wait is signaled, from block `i` on.
pub open spec fn all_signaled(s: Sched, t: usize, i: int) -> bool
    decreases s.threads[t as int].wait_count - i,
{
    let th = s.threads[t as int];
    if i < 0 || i >= th.wait_count {
        true
    } else {
        signaled_for(s.objects, t, th.wait_blocks.at(i).object) && all_signaled(s, t, i + 1)
    }
}

/// The timeout of a thread's wait has come.
pub open spec fn timed_out(s: Sched, t: usize) -> bool {
    let th = s.threads[t as int];
    th.wait_timed && s.objects[th.timer as int].header.signal_state > 0
}

/// Test a thread's wait. Objects come before the timeout, so a signal in time
/// wins over an expiry at the same moment.
pub open spec fn evaluate(s: Sched, t: usize) -> Satisfy {
    let th = s.threads[t as int];
    let expired = if timed_out(s, t) {
        Satisfy::Timeout
    } else {
        Satisfy::NotYet
    };
    match th.wait_type {
        WaitType::Any => match first_signaled(s, t, 0) {
            Some(i) => Satisfy::Any(i),
            None => expired,
        },
        WaitType::All => if th.wait_count > 0 && all_signaled(s, t, 0) {
            Satisfy::All
        } else {
            expired
        },
    }
}

/// One less, without borrow.
pub open spec fn one_less(x: i32) -> i32 {
    if x == i32::MIN {
        i32::MAX
    } else {
        (x - 1) as i32
    }
}

/// An object after a wait of thread `t` has consumed it: an auto-reset event is
/// cleared, a count goes down by one, a mutant gets its owner; everything else
/// stays signaled.
pub open spec fn consumed(o: DispatcherObject, t: usize) -> DispatcherObject {
    let h = o.header;
    match h.object_type {
        DispatcherObjectType::SynchronizationEvent => DispatcherObject {
            header: DispatcherHeader { signal_state: 0, ..h },
            ..o
        },
        DispatcherObjectType::Semaphore => DispatcherObject {
            header: DispatcherHeader { signal_state: one_less(h.signal_state), ..h },
            ..o
        },
        DispatcherObjectType::Mutant => DispatcherObject {
            header: DispatcherHeader { signal_state: one_less(h.signal_state), ..h },
            owner: Some(t),
            ..o
        },
        _ => o,
    }
}

/// The objects with one of them consumed.
pub open spec fn consume_one(objects: Seq<DispatcherObject>, o: usize, t: usize) -> Seq<
    DispatcherObject,
> {
    objects.update(o as int, consumed(objects[o as int], t))
}

/// The objects with the first `n` blocks of a thread's wait consumed.
pub open spec fn consume_blocks(objects: Seq<DispatcherObject>, th: Kthread, t: usize, n: int) -> Seq<
    DispatcherObject,
>
    decreases n,
{
    if n <= 0 {
        objects
    } else {
        consume_one(consume_blocks(objects, th, t, n - 1), th.wait_blocks.at(n - 1).object, t)
    }
}

/// The objects after a satisfied wait, and what it returns.
pub open spec fn outcome(s: Sched, t: usize, r: Satisfy) -> (Seq<DispatcherObject>, NtStatus) {
    let th = s.threads[t as int];
    match r {
        Satisfy::Any(i) => {
            let b = th.wait_blocks.at(i as int);
            (consume_one(s.objects, b.object, t), NtStatus(b.wait_key))
        },
        Satisfy::All => (
            consume_blocks(s.objects, th, t, th.wait_count as int),
            NtStatus(NtStatus::WAIT_0),
        ),
        Satisfy::Timeout => (s.objects, NtStatus(NtStatus::TIMEOUT)),
        Satisfy::NotYet => (s.objects, NtStatus(NtStatus::UNSUCCESSFUL)),
    }
}

/// The links without those of thread `t`.
pub open spec fn without_thread(links: Seq<WaitLink>, t: usize) -> Seq<WaitLink>
    decreases links.len(),
{
    if links.len() == 0 {
        links
    } else {
        let rest = without_thread(links.drop_last(), t);
        if links.last().thread == t {
            rest
        } else {
            rest.push(links.last())
        }
    }
}

/// The timers without `o`.
pub open spec fn without_timer(timers: Seq<usize>, o: usize) -> Seq<usize>
    decreases timers.len(),
{
    if timers.len() == 0 {
        timers
    } else {
        let rest = without_timer(timers.drop_last(), o);
        if timers.last() == o {
            rest
        } else {
            rest.push(timers.last())
        }
    }
}

/// A thread with none of its blocks on a wait list.
pub open spec fn inactive(b: WaitBlocks) -> WaitBlocks {
    WaitBlocks {
        first: KwaitBlock { active: false, ..b.first },
        second: KwaitBlock { active: false, ..b.second },
        third: KwaitBlock { active: false, ..b.third },
    }
}

/// The state with a thread off every wait list and its timeout cancelled.
pub open spec fn unlinked(s: Sched, t: usize) -> Sched {
    let th = s.threads[t as int];
    let o = s.objects[th.timer as int];
    Sched {
        links: without_thread(s.links, t),
        timers: if th.wait_timed {
            without_timer(s.timers, th.timer)
        } else {
            s.timers
        },
        objects: if th.wait_timed {
            s.objects.update(th.timer as int, DispatcherObject { inserted: false, ..o })
        } else {
            s.objects
        },
        threads: s.threads.update(
            t as int,
            Kthread { wait_timed: false, wait_blocks: inactive(th.wait_blocks), ..th },
        ),
        ..s
    }
}

/// The state with a thread ready to run.
pub open spec fn readied(s: Sched, t: usize) -> Sched {
    let th = s.threads[t as int];
    Sched {
        threads: s.threads.update(t as int, Kthread { state: ThreadState::Ready, ..th }),
        ready: with_ready(s.ready, t, th.priority as int),
        ..s
    }
}

/// The state after a blocked thread's wait has been satisfied.
pub open spec fn woken(s: Sched, t: usize) -> Sched {
    let (objects, status) = outcome(s, t, evaluate(s, t));
    let th = s.threads[t as int];
    readied(
        unlinked(
            Sched {
                objects,
                threads: s.threads.update(t as int, Kthread { wait_status: status, ..th }),
                ..s
            },
            t,
        ),
        t,
    )
}

/// The first waiter of object `o` whose whole wait can complete, from link `i`
/// on.
pub open spec fn first_satisfied(s: Sched, o: usize, i: int) -> Option<usize>
    decreases s.links.len() - i,
{
    if i < 0 || i >= s.links.len() {
        None
    } else if s.links[i].object == o && evaluate(s, s.links[i].thread) != Satisfy::NotYet {
        Some(s.links[i].thread)
    } else {
        first_satisfied(s, o, i + 1)
    }
}

/// Waking the waiters of an object one by one, at most `n` of them: the state
/// and how many woke.
pub open spec fn wake_waiters(s: Sched, o: usize, n: int) -> (Sched, int)
    decreases n,
{
    match first_satisfied(s, o, 0) {
        None => (s, 0),
        Some(t) => if n <= 0 {
            (s, 0)
        } else {
            let (r, k) = wake_waiters(woken(s, t), o, n - 1);
            (r, k + 1)
        },
    }
}

/// The state after an object has become signaled: every thread whose whole wait
/// can now complete is woken, oldest first, consuming the signal as it goes.
pub open spec fn wait_tested(s: Sched, o: usize) -> (Sched, int) {
    wake_waiters(s, o, s.links.len() as int)
}

/// The state with an object's signal state set.
pub open spec fn with_signal(s: Sched, o: usize, v: i32) -> Sched {
    let obj = s.objects[o as int];
    Sched {
        objects: s.objects.update(
            o as int,
            DispatcherObject {
                header: DispatcherHeader { signal_state: v, ..obj.header },
                ..obj
            },
        ),
        ..s
    }
}

/// The earliest deadline of some timers.
pub open spec fn earliest_due(objects: Seq<DispatcherObject>, timers: Seq<usize>) -> u64
    decreases timers.len(),
{
    if timers.len() == 0 {
        u64::MAX
    } else {
        let rest = earliest_due(objects, timers.drop_last());
        let d = objects[timers.last() as int].due_tick;
        if d < rest {
            d
        } else {
            rest
        }
    }
}

/// The state with its earliest deadline recomputed.
pub open spec fn with_earliest(s: Sched) -> Sched {
    Sched { earliest: earliest_due(s.objects, s.timers), ..s }
}

// ---------------------------------------------------------------------------
// Lemmas
// ---------------------------------------------------------------------------
pub proof fn lemma_without_thread(links: Seq<WaitLink>, t: usize)
    ensures
        forall|i: int|
            0 <= i < without_thread(links, t).len() ==> (#[trigger] without_thread(
                links,
                t,
            )[i]).thread != t && links.contains(without_thread(links, t)[i]),
        without_thread(links, t).len() <= links.len(),
        (exists|i: int| 0 <= i < links.len() && (#[trigger] links[i]).thread == t)
            ==> without_thread(links, t).len() < links.len(),
    decreases links.len(),
{
    if links.len() > 0 {
        let init = links.drop_last();
        lemma_without_thread(init, t);
        let r = without_thread(links, t);
        let ri = without_thread(init, t);
        assert forall|i: int| 0 <= i < r.len() implies (#[trigger] r[i]).thread != t
            && links.contains(r[i]) by {
            if i < ri.len() {
                assert(r[i] == ri[i]);
                assert(init.contains(ri[i]));
                let k = choose|k: int| 0 <= k < init.len() && init[k] == ri[i];
                assert(links[k] == ri[i]);
            } else {
                assert(r[i] == links[links.len() - 1]);
            }
        }
        if exists|i: int| 0 <= i < links.len() && (#[trigger] links[i]).thread == t {
            let i = choose|i: int| 0 <= i < links.len() && (#[trigger] links[i]).thread == t;
            if links.last().thread != t {
                assert(init[i].thread == t);
            }
        }
    }
}

pub proof fn lemma_without_timer(timers: Seq<usize>, o: usize)
    ensures
        forall|i: int|
            0 <= i < without_timer(timers, o).len() ==> #[trigger] without_timer(timers, o)[i] != o
                && timers.contains(without_timer(timers, o)[i]),
        without_timer(timers, o).len() <= timers.len(),
    decreases timers.len(),
{
    if timers.len() > 0 {
        let init = timers.drop_last();
        lemma_without_timer(init, o);
        let r = without_timer(timers, o);
        let ri = without_timer(init, o);
        assert forall|i: int| 0 <= i < r.len() implies #[trigger] r[i] != o && timers.contains(
            r[i],
        ) by {
            if i < ri.len() {
                assert(r[i] == ri[i]);
                assert(init.contains(ri[i]));
                let k = choose|k: int| 0 <= k < init.len() && init[k] == ri[i];
                assert(timers[k] == ri[i]);
            } else {
                assert(r[i] == timers[timers.len() - 1]);
            }
        }
    }
}

pub proof fn lemma_consume_len(objects: Seq<DispatcherObject>, th: Kthread, t: usize, n: int)
    requires
        thread_sound(th, objects.len() as int),
        n <= th.wait_count,
    ensures
        consume_blocks(objects, th, t, n).len() == objects.len(),
    decreases n,
{
    if n > 0 {
        assert(th.wait_blocks.at(n - 1).object < objects.len());
        lemma_consume_len(objects, th, t, n - 1);
    }
}

pub proof fn lemma_first_satisfied(s: Sched, o: usize, i: int)
    requires
        0 <= i,
    ensures
        match first_satisfied(s, o, i) {
            Some(t) => evaluate(s, t) != Satisfy::NotYet && exists|k: int|
                i <= k < s.links.len() && #[trigger] s.links[k] == (WaitLink {
                    object: o,
                    thread: t,
                }),
            None => forall|k: int|
                i <= k < s.links.len() && (#[trigger] s.links[k]).object == o ==> evaluate(
                    s,
                    s.links[k].thread,
                ) == Satisfy::NotYet,
        },
    decreases s.links.len() - i,
{
    if i < s.links.len() && !(s.links[i].object == o && evaluate(s, s.links[i].thread)
        != Satisfy::NotYet) {
        lemma_first_satisfied(s, o, i + 1);
    }
}

proof fn lemma_first_signaled(s: Sched, t: usize, i: int)
    requires
        0 <= i,
    ensures
        first_signaled(s, t, i) matches Some(k) ==> i <= k < s.threads[t as int].wait_count
            && signaled_for(s.objects, t, s.threads[t as int].wait_blocks.at(k as int).object),
    decreases s.threads[t as int].wait_count - i,
{
    let th = s.threads[t as int];
    if i < th.wait_count && !signaled_for(s.objects, t, th.wait_blocks.at(i).object) {
        lemma_first_signaled(s, t, i + 1);
    }
}

pub proof fn lemma_evaluate_index(s: Sched, t: usize)
    ensures
        evaluate(s, t) matches Satisfy::Any(i) ==> i < s.threads[t as int].wait_count
            && signaled_for(s.objects, t, s.threads[t as int].wait_blocks.at(i as int).object),
{
    lemma_first_signaled(s, t, 0);
}

/// Waking a thread keeps the state sound and takes its links away.
pub proof fn lemma_woken(s: Sched, t: usize)
    requires
        sched_sound(s),
        t < s.threads.len(),
    ensures
        sched_sound(woken(s, t)),
        woken(s, t).objects.len() == s.objects.len(),
        woken(s, t).threads.len() == s.threads.len(),
        woken(s, t).links == without_thread(s.links, t),
        woken(s, t).current == s.current,
        woken(s, t).idle == s.idle,
{
    let (objects, status) = outcome(s, t, evaluate(s, t));
    let th = s.threads[t as int];
    assert(thread_sound(s.threads[t as int], s.objects.len() as int));
    lemma_consume_len(s.objects, th, t, th.wait_count as int);
    lemma_evaluate_index(s, t);
    match evaluate(s, t) {
        Satisfy::Any(i) => {
            assert(th.wait_blocks.at(i as int).object < s.objects.len());
        },
        _ => {},
    }
    assert(objects.len() == s.objects.len());
    let s1 = Sched {
        objects,
        threads: s.threads.update(t as int, Kthread { wait_status: status, ..th }),
        ..s
    };
    let s2 = unlinked(s1, t);
    let r = woken(s, t);
    lemma_without_thread(s.links, t);
    lemma_without_timer(s.timers, th.timer);
    assert forall|k: int| 0 <= k < r.threads.len() implies #[trigger] thread_sound(
        r.threads[k],
        r.objects.len() as int,
    ) by {
        assert(thread_sound(s.threads[k], s.objects.len() as int));
        if k == t {
            let b = th.wait_blocks;
            assert forall|i: int| 0 <= i < th.wait_count implies (#[trigger] inactive(b).at(
                i,
            )).object < r.objects.len() && inactive(b).at(i).wait_key == i by {
                assert(b.at(i).object < s.objects.len());
            }
        }
    }
    assert forall|i: int| 0 <= i < r.links.len() implies (#[trigger] r.links[i]).thread
        < r.threads.len() && r.links[i].object < r.objects.len() by {
        assert(s.links.contains(r.links[i]));
        let k = choose|k: int| 0 <= k < s.links.len() && s.links[k] == r.links[i];
        assert(s.links[k].thread < s.threads.len());
    }
    assert forall|i: int| 0 <= i < r.timers.len() implies #[trigger] r.timers[i]
        < r.objects.len() by {
        if th.wait_timed {
            assert(s.timers.contains(r.timers[i]));
            let k = choose|k: int| 0 <= k < s.timers.len() && s.timers[k] == r.timers[i];
            assert(s.timers[k] < s.objects.len());
        }
    }
    assert forall|p: int, i: int|
        0 <= p < PRIORITIES && 0 <= i < r.ready[p].len() implies #[trigger] r.ready[p][i]
        < r.threads.len() by {
        let pr = th.priority as int;
        if p == pr {
            if i < s.ready[p].len() {
                assert(s.ready[p][i] < s.threads.len());
            }
        } else {
            assert(s.ready[p][i] < s.threads.len());
        }
    }
}

// ---------------------------------------------------------------------------
// Executable waits
// ---------------------------------------------------------------------------
impl Dispatcher {
    /// The state is consistent.
    pub open spec fn wf(&self) -> bool {
        &&& self.ready.wf()
        &&& sched_sound(self@)
    }

    fn is_signaled_for(&self, t: usize, o: usize) -> (r: bool)
        requires
            o < self.objects@.len(),
        ensures
            r == signaled_for(self@.objects, t, o),
    {
        let obj: DispatcherObject = self.objects[o];
        if obj.header.signal_state > 0 {
            return true;
        }
        if obj.header.object_type == DispatcherObjectType::Mutant {
            return match obj.owner {
                Some(w) => w == t,
                None => false,
            };
        }
        false
    }

    /// Test a thread's wait against the current object states.
    fn evaluate_wait(&self, t: usize) -> (r: Satisfy)
        requires
            sched_sound(self@),
            t < self.threads@.len(),
        ensures
            r == evaluate(self@, t),
            r matches Satisfy::Any(i) ==> i < self@.threads[t as int].wait_count,
    {
        let th: Kthread = self.threads[t];
        proof {
            assert(thread_sound(self@.threads[t as int], self@.objects.len() as int));
        }
        match th.wait_type {
            WaitType::Any => {
                let mut i: usize = 0;
                while i < th.wait_count
                    invariant
                        i <= th.wait_count,
                        th == self@.threads[t as int],
                        thread_sound(th, self@.objects.len() as int),
                        th.wait_type == WaitType::Any,
                        first_signaled(self@, t, 0) == first_signaled(self@, t, i as int),
                    decreases th.wait_count - i,
                {
                    assert(th.wait_blocks.at(i as int).object < self@.objects.len());
                    if self.is_signaled_for(t, th.wait_blocks.get(i).object) {
                        return Satisfy::Any(i);
                    }
                    i = i + 1;
                }
            },
            WaitType::All => {
                let mut all: bool = th.wait_count > 0;
                let mut i: usize = 0;
                while i < th.wait_count && all
                    invariant
                        i <= th.wait_count,
                        th == self@.threads[t as int],
                        thread_sound(th, self@.objects.len() as int),
                        (th.wait_count > 0 && all_signaled(self@, t, 0)) == (all && all_signaled(
                            self@,
                            t,
                            i as int,
                        )),
                        !all ==> i > 0 || th.wait_count == 0,
                    decreases th.wait_count - i,
                {
                    assert(th.wait_blocks.at(i as int).object < self@.objects.len());
                    all = self.is_signaled_for(t, th.wait_blocks.get(i).object);
                    i = i + 1;
                }
                if all {
                    return Satisfy::All;
                }
            },
        }
        if th.wait_timed && self.objects[th.timer].header.signal_state > 0 {
            return Satisfy::Timeout;
        }
        Satisfy::NotYet
    }

    /// Apply the effect of a wait on one object as the wait consumes it.
    fn satisfy_object_for(&mut self, o: usize, t: usize)
        requires
            o < old(self).objects@.len(),
        ensures
            final(self)@ == (Sched {
                objects: consume_one(old(self)@.objects, o, t),
                ..old(self)@
            }),
            final(self).ready == old(self).ready,
    {
        let mut obj: DispatcherObject = self.objects[o];
        match obj.header.object_type {
            DispatcherObjectType::SynchronizationEvent => {
                obj.header.signal_state = 0;
            },
            DispatcherObjectType::Semaphore => {
                obj.header.signal_state = obj.header.signal_state.wrapping_sub(1);
            },
            DispatcherObjectType::Mutant => {
                obj.header.signal_state = obj.header.signal_state.wrapping_sub(1);
                obj.owner = Some(t);
            },
            _ => {},
        }
        self.objects.set(o, obj);
    }

    /// Consume what a satisfied wait acquired and compute its status.
    fn apply_consume(&mut self, t: usize, r: Satisfy) -> (status: NtStatus)
        requires
            sched_sound(old(self)@),
            t < old(self).threads@.len(),
            r matches Satisfy::Any(i) ==> i < old(self)@.threads[t as int].wait_count,
        ensures
            (final(self)@.objects, status) == outcome(old(self)@, t, r),
            final(self)@ == (Sched { objects: final(self)@.objects, ..old(self)@ }),
            final(self).ready == old(self).ready,
    {
        let ghost s0 = self@;
        let th: Kthread = self.threads[t];
        proof {
            assert(thread_sound(self@.threads[t as int], self@.objects.len() as int));
        }
        match r {
            Satisfy::Any(i) => {
                let b: KwaitBlock = th.wait_blocks.get(i);
                assert(th.wait_blocks.at(i as int).object < self@.objects.len());
                self.satisfy_object_for(b.object, t);
                NtStatus(b.wait_key)
            },
            Satisfy::All => {
                let mut i: usize = 0;
                while i < th.wait_count
                    invariant
                        i <= th.wait_count,
                        thread_sound(th, s0.objects.len() as int),
                        self@ == (Sched {
                            objects: consume_blocks(s0.objects, th, t, i as int),
                            ..s0
                        }),
                        self.ready == old(self).ready,
                        self@.objects.len() == s0.objects.len(),
                    decreases th.wait_count - i,
                {
                    assert(th.wait_blocks.at(i as int).object < s0.objects.len());
                    self.satisfy_object_for(th.wait_blocks.get(i).object, t);
                    i = i + 1;
                }
                NtStatus(NtStatus::WAIT_0)
            },
            Satisfy::Timeout => NtStatus(NtStatus::TIMEOUT),
            Satisfy::NotYet => NtStatus(NtStatus::UNSUCCESSFUL),
        }
    }

    fn drop_links(&mut self, t: usize)
        ensures
            final(self)@ == (Sched { links: without_thread(old(self)@.links, t), ..old(self)@ }),
            final(self).ready == old(self).ready,
    {
        let ghost links = self.links@;
        let mut kept: Vec<WaitLink> = Vec::new();
        let mut i: usize = 0;
        assert(links.take(0) =~= Seq::empty());
        while i < self.links.len()
            invariant
                i <= links.len(),
                links == self.links@,
                self@ == old(self)@,
                self.ready == old(self).ready,
                kept@ == without_thread(links.take(i as int), t),
            decreases links.len() - i,
        {
            let l: WaitLink = self.links[i];
            proof {
                let p = links.take(i + 1);
                assert(p.drop_last() =~= links.take(i as int));
                assert(p.last() == l);
            }
            if l.thread != t {
                kept.push(l);
            }
            i = i + 1;
        }
        assert(links.take(i as int) =~= links);
        self.links = kept;
    }

    pub(crate) fn drop_timer(&mut self, o: usize)
        ensures
            final(self)@ == (Sched { timers: without_timer(old(self)@.timers, o), ..old(self)@ }),
            final(self).ready == old(self).ready,
    {
        let ghost timers = self.timers@;
        let mut kept: Vec<usize> = Vec::new();
        let mut i: usize = 0;
        assert(timers.take(0) =~= Seq::empty());
        while i < self.timers.len()
            invariant
                i <= timers.len(),
                timers == self.timers@,
                self@ == old(self)@,
                self.ready == old(self).ready,
                kept@ == without_timer(timers.take(i as int), o),
            decreases timers.len() - i,
        {
            let x: usize = self.timers[i];
            proof {
                let p = timers.take(i + 1);
                assert(p.drop_last() =~= timers.take(i as int));
                assert(p.last() == x);
            }
            if x != o {
                kept.push(x);
            }
            i = i + 1;
        }
        assert(timers.take(i as int) =~= timers);
        self.timers = kept;
    }

    /// Take a thread off every wait list and cancel its timeout.
    fn unlink_thread_waits(&mut self, t: usize)
        requires
            t < old(self).threads@.len(),
            old(self).threads@[t as int].timer < old(self).objects@.len(),
        ensures
            final(self)@ == unlinked(old(self)@, t),
            final(self).ready == old(self).ready,
    {
        let ghost s0 = self@;
        let mut th: Kthread = self.threads[t];
        self.drop_links(t);
        if th.wait_timed {
            self.drop_timer(th.timer);
            let mut obj: DispatcherObject = self.objects[th.timer];
            obj.inserted = false;
            self.objects.set(th.timer, obj);
        }
        th.wait_timed = false;
        let b: WaitBlocks = th.wait_blocks;
        th.wait_blocks = WaitBlocks {
            first: KwaitBlock { active: false, ..b.first },
            second: KwaitBlock { active: false, ..b.second },
            third: KwaitBlock { active: false, ..b.third },
        };
        self.threads.set(t, th);
        assert(self@ =~= unlinked(s0, t));
    }

    /// Put a thread at the end of its priority's ready queue.
    pub(crate) fn ready_thread(&mut self, t: usize)
        requires
            old(self).ready.wf(),
            t < old(self).threads@.len(),
            old(self).threads@[t as int].priority < PRIORITIES,
        ensures
            final(self).ready.wf(),
            final(self)@ == readied(old(self)@, t),
    {
        let ghost s0 = self@;
        let mut th: Kthread = self.threads[t];
        th.state = ThreadState::Ready;
        self.threads.set(t, th);
        self.ready.insert(t, th.priority);
        assert(self@ =~= readied(s0, t));
    }

    /// After an object has become signaled, wake every blocked thread whose whole
    /// wait can now complete. Returns how many woke.
    pub(crate) fn wait_test(&mut self, o: usize) -> (woke: usize)
        requires
            old(self).wf(),
            o < old(self).objects@.len(),
        ensures
            final(self).wf(),
            (final(self)@, woke as int) == wait_tested(old(self)@, o),
            final(self)@.objects.len() == old(self)@.objects.len(),
            final(self)@.threads.len() == old(self)@.threads.len(),
            final(self)@.current == old(self)@.current,
            final(self)@.idle == old(self)@.idle,
    {
        let ghost s0 = self@;
        let ghost n0 = s0.links.len() as int;
        let links0: usize = self.links.len();
        let mut woke: usize = 0;
        let mut more: bool = true;
        while more
            invariant
                self.wf(),
                o < self.objects@.len(),
                s0 == old(self)@,
                n0 == s0.links.len(),
                links0 == n0,
                woke <= n0,
                self@.links.len() <= n0 - woke,
                self@.objects.len() == s0.objects.len(),
                self@.threads.len() == s0.threads.len(),
                self@.current == s0.current,
                self@.idle == s0.idle,
                wait_tested(s0, o) == (
                    wake_waiters(self@, o, n0 - woke).0,
                    wake_waiters(self@, o, n0 - woke).1 + woke,
                ),
                !more ==> first_satisfied(self@, o, 0) is None,
            decreases self@.links.len(), (if more { 1int } else { 0 }),
        {
            let ghost s = self@;
            let mut found: Option<usize> = None;
            let mut i: usize = 0;
            while i < self.links.len() && found.is_none()
                invariant
                    self@ == s,
                    sched_sound(s),
                    i <= s.links.len(),
                    found is None ==> first_satisfied(s, o, 0) == first_satisfied(s, o, i as int),
                    found matches Some(t) ==> first_satisfied(s, o, 0) == Some(t) && t
                        < s.threads.len() && evaluate(s, t) != Satisfy::NotYet && i > 0 && s.links[i
                        - 1].thread == t && i <= s.links.len(),
                    self.ready.wf(),
                decreases s.links.len() - i,
            {
                let l: WaitLink = self.links[i];
                assert(s.links[i as int].thread < s.threads.len());
                if l.object == o && self.evaluate_wait(l.thread) != Satisfy::NotYet {
                    found = Some(l.thread);
                }
                i = i + 1;
            }
            match found {
                None => {
                    more = false;
                },
                Some(t) => {
                    proof {
                        lemma_woken(s, t);
                        lemma_without_thread(s.links, t);
                        assert(s.links[i - 1].thread == t);
                        assert(thread_sound(s.threads[t as int], s.objects.len() as int));
                    }
                    let r: Satisfy = self.evaluate_wait(t);
                    let status: NtStatus = self.apply_consume(t, r);
                    proof {
                        lemma_consume_len(
                            s.objects,
                            s.threads[t as int],
                            t,
                            s.threads[t as int].wait_count as int,
                        );
                    }
                    let mut th: Kthread = self.threads[t];
                    th.wait_status = status;
                    self.threads.set(t, th);
                    self.unlink_thread_waits(t);
                    self.ready_thread(t);
                    assert(self@ =~= woken(s, t));
                    woke = woke + 1;
                },
            }
        }
        woke
    }
}

// ---------------------------------------------------------------------------
// Context switches
// ---------------------------------------------------------------------------
/// What the processor does to change threads.
#[derive(Debug, Clone, Copy, PartialEq, Eq)]
pub struct Switch {
    pub from: usize,
    pub to: usize,
    /// Where interrupts and system calls from user mode land.
    pub kernel_stack: u64,
    /// The address space to load, when it is not the loaded one.
    pub load_cr3: Option<u64>,
    /// The user GS base to set; none for a kernel thread.
    pub gs_base: Option<u64>,
    /// The address spaces whose private module data changes places, as
    /// (outgoing, incoming).
    pub shim_data: Option<(u64, u64)>,
}

/// The loaded address space and the kernel's.
#[derive(Debug, Clone, Copy, PartialEq, Eq)]
pub struct Spaces {
    pub loaded: u64,
    pub kernel: u64,
}

/// How the processor gets from one thread to another.
pub open spec fn switch_plan(threads: Seq<Kthread>, from: usize, to: usize, sp: Spaces) -> Switch {
    let cur = threads[from as int];
    let next = threads[to as int];
    let target = if next.cr3 != 0 {
        next.cr3
    } else {
        sp.kernel
    };
    Switch {
        from,
        to,
        kernel_stack: next.stack_top,
        load_cr3: if target != sp.loaded {
            Some(target)
        } else {
            None
        },
        gs_base: if next.gs_base != 0 {
            Some(next.gs_base)
        } else {
            None
        },
        shim_data: if cur.cr3 != next.cr3 {
            Some((cur.cr3, next.cr3))
        } else {
            None
        },
    }
}

/// The state after thread `cur` has given up the processor to the best ready
/// thread, or to the idle thread, and the switch that takes; none when it keeps
/// running.
pub open spec fn switched(s: Sched, cur: usize, sp: Spaces) -> (Sched, Option<Switch>) {
    let (ready, chosen) = next_ready(s.ready);
    let next = match chosen {
        Some(t) => t,
        None => s.idle,
    };
    let th = s.threads[next as int];
    if next == cur {
        (
            Sched {
                ready,
                threads: s.threads.update(
                    cur as int,
                    Kthread { state: ThreadState::Running, ..th },
                ),
                ..s
            },
            None,
        )
    } else {
        (
            Sched {
                ready,
                threads: s.threads.update(
                    next as int,
                    Kthread { state: ThreadState::Running, quantum: DEFAULT_QUANTUM, ..th },
                ),
                current: next,
                ..s
            },
            Some(switch_plan(s.threads, cur, next, sp)),
        )
    }
}

pub proof fn lemma_switched(s: Sched, cur: usize, sp: Spaces)
    requires
        sched_sound(s),
        cur < s.threads.len(),
    ensures
        sched_sound(switched(s, cur, sp).0),
        switched(s, cur, sp).0.threads.len() == s.threads.len(),
{
    let (ready, chosen) = next_ready(s.ready);
    crate::ke::ready::choice_is_highest_and_oldest(s.ready);
    let r = switched(s, cur, sp).0;
    match chosen {
        Some(t) => {
            let p = choose|p: int|
                {
                    &&& 0 <= p < PRIORITIES
                    &&& (#[trigger] s.ready[p]).len() > 0
                    &&& s.ready[p][0] == t
                    &&& forall|k: int| p < k < PRIORITIES ==> (#[trigger] s.ready[k]).len() == 0
                };
            assert(s.ready[p][0] < s.threads.len());
        },
        None => {},
    }
    assert forall|k: int| 0 <= k < r.threads.len() implies #[trigger] thread_sound(
        r.threads[k],
        r.objects.len() as int,
    ) by {
        assert(thread_sound(s.threads[k], s.objects.len() as int));
    }
    let hp = highest_ready(s.ready, PRIORITIES as int);
    crate::ke::ready::lemma_highest(s.ready, PRIORITIES as int);
    assert forall|p: int, i: int|
        0 <= p < PRIORITIES && 0 <= i < r.ready[p].len() implies #[trigger] r.ready[p][i]
        < r.threads.len() by {
        if hp == Some(p) {
            assert(r.ready[p] == s.ready[p].skip(1));
            assert(s.ready[p][i + 1] < s.threads.len());
        } else {
            assert(r.ready[p] == s.ready[p]);
            assert(s.ready[p][i] < s.threads.len());
        }
    }
}

/// A change to one thread that keeps its entries sound keeps the state sound.
pub proof fn lemma_thread_update(s: Sched, t: usize, th: Kthread)
    requires
        sched_sound(s),
        t < s.threads.len(),
        thread_sound(th, s.objects.len() as int),
    ensures
        sched_sound(Sched { threads: s.threads.update(t as int, th), ..s }),
{
    let r = Sched { threads: s.threads.update(t as int, th), ..s };
    assert forall|k: int| 0 <= k < r.threads.len() implies #[trigger] thread_sound(
        r.threads[k],
        r.objects.len() as int,
    ) by {
        assert(thread_sound(s.threads[k], s.objects.len() as int));
    }
}

pub proof fn lemma_readied(s: Sched, t: usize)
    requires
        sched_sound(s),
        t < s.threads.len(),
    ensures
        sched_sound(readied(s, t)),
{
    let th = s.threads[t as int];
    assert(thread_sound(th, s.objects.len() as int));
    lemma_thread_update(s, t, Kthread { state: ThreadState::Ready, ..th });
    let r = readied(s, t);
    assert forall|p: int, i: int|
        0 <= p < PRIORITIES && 0 <= i < r.ready[p].len() implies #[trigger] r.ready[p][i]
        < r.threads.len() by {
        if p == th.priority && i == s.ready[p].len() {
        } else {
            assert(s.ready[p][i] < s.threads.len());
        }
    }
}

impl Dispatcher {
    /// Give the processor from `cur` to the next thread.
    pub(crate) fn switch_away(&mut self, cur: usize, sp: &Spaces) -> (r: Option<Switch>)
        requires
            old(self).wf(),
            cur < old(self).threads@.len(),
        ensures
            final(self).wf(),
            (final(self)@, r) == switched(old(self)@, cur, *sp),
    {
        let ghost s0 = self@;
        proof {
            lemma_switched(s0, cur, *sp);
            crate::ke::ready::choice_is_highest_and_oldest(s0.ready);
        }
        let next: usize = match self.ready.take_next() {
            Some(t) => t,
            None => self.idle,
        };
        assert(next < s0.threads.len()) by {
            match next_ready(s0.ready).1 {
                Some(t) => {
                    let p = choose|p: int|
                        {
                            &&& 0 <= p < PRIORITIES
                            &&& (#[trigger] s0.ready[p]).len() > 0
                            &&& s0.ready[p][0] == t
                            &&& forall|k: int|
                                p < k < PRIORITIES ==> (#[trigger] s0.ready[k]).len() == 0
                        };
                    assert(s0.ready[p][0] < s0.threads.len());
                },
                None => {},
            }
        }
        let mut th: Kthread = self.threads[next];
        if next == cur {
            th.state = ThreadState::Running;
            self.threads.set(cur, th);
            return None;
        }
        let out_cr3: u64 = self.threads[cur].cr3;
        th.state = ThreadState::Running;
        th.quantum = DEFAULT_QUANTUM;
        self.threads.set(next, th);
        self.current = next;
        let target: u64 = if th.cr3 != 0 {
            th.cr3
        } else {
            sp.kernel
        };
        Some(
            Switch {
                from: cur,
                to: next,
                kernel_stack: th.stack_top,
                load_cr3: if target != sp.loaded {
                    Some(target)
                } else {
                    None
                },
                gs_base: if th.gs_base != 0 {
                    Some(th.gs_base)
                } else {
                    None
                },
                shim_data: if out_cr3 != th.cr3 {
                    Some((out_cr3, th.cr3))
                } else {
                    None
                },
            },
        )
    }
}

// ---------------------------------------------------------------------------
// Setting up
// ---------------------------------------------------------------------------
/// A thread entered in the table: its join object and its timer are the next two
/// objects.
pub open spec fn with_thread(s: Sched, t: Kthread) -> Sched {
    let n = s.objects.len();
    let join = crate::ke::dispatcher::plain(
        DispatcherHeader { object_type: DispatcherObjectType::Thread, signal_state: 0 },
    );
    let timer = crate::ke::dispatcher::plain(
        DispatcherHeader { object_type: DispatcherObjectType::Timer, signal_state: 0 },
    );
    Sched {
        objects: s.objects.push(join).push(timer),
        threads: s.threads.push(
            Kthread { object: n as usize, timer: (n + 1) as usize, ..t },
        ),
        ..s
    }
}

impl Dispatcher {
    /// Bring the dispatcher up: the boot context becomes the idle thread, and
    /// runs.
    pub fn ki_initialize(boot: Kthread) -> (d: Self)
        requires
            boot.priority < PRIORITIES,
            boot.wait_count == 0,
        ensures
            d.wf(),
            d@.threads.len() == 1,
            d@.threads[0] == (Kthread {
                object: 0,
                timer: 1,
                state: ThreadState::Running,
                ..boot
            }),
            d@.objects.len() == 2,
            d@.current == 0,
            d@.idle == 0,
            d@.links.len() == 0,
            d@.timers.len() == 0,
            d@.tick == 0,
            d@.earliest == u64::MAX,
            !d@.quantum_end,
            forall|p: int| 0 <= p < PRIORITIES ==> (#[trigger] d@.ready[p]).len() == 0,
    {
        let mut objects: Vec<DispatcherObject> = Vec::new();
        objects.push(
            DispatcherObject::of(DispatcherHeader::new(DispatcherObjectType::Thread, 0)),
        );
        objects.push(Ktimer::new().object());
        let mut t: Kthread = boot;
        t.object = 0;
        t.timer = 1;
        t.state = ThreadState::Running;
        let mut threads: Vec<Kthread> = Vec::new();
        threads.push(t);
        let d = Dispatcher {
            objects,
            threads,
            ready: ReadyQueues::new(),
            links: Vec::new(),
            timers: Vec::new(),
            tick: 0,
            earliest: u64::MAX,
            current: 0,
            idle: 0,
            quantum_end: false,
        };
        assert(thread_sound(d@.threads[0], 2));
        d
    }

    /// Enter a waitable object and return its name.
    pub fn add_object(&mut self, o: DispatcherObject) -> (id: usize)
        requires
            old(self).wf(),
        ensures
            final(self).wf(),
            id == old(self)@.objects.len(),
            final(self)@ == (Sched { objects: old(self)@.objects.push(o), ..old(self)@ }),
    {
        let ghost s0 = self@;
        let id: usize = self.objects.len();
        self.objects.push(o);
        proof {
            assert forall|k: int| 0 <= k < self@.threads.len() implies #[trigger] thread_sound(
                self@.threads[k],
                self@.objects.len() as int,
            ) by {
                assert(thread_sound(s0.threads[k], s0.objects.len() as int));
                let th = s0.threads[k];
                assert forall|i: int| 0 <= i < th.wait_count implies (#[trigger] th.wait_blocks.at(
                    i,
                )).object < self@.objects.len() && th.wait_blocks.at(i).wait_key == i by {
                    assert(th.wait_blocks.at(i).object < s0.objects.len());
                }
            }
        }
        id
    }

    /// Enter a new thread, not ready yet, and return its name.
    pub fn add_thread(&mut self, t: Kthread) -> (id: usize)
        requires
            old(self).wf(),
            t.priority < PRIORITIES,
            t.wait_count == 0,
        ensures
            final(self).wf(),
            id == old(self)@.threads.len(),
            final(self)@ == with_thread(old(self)@, t),
    {
        let ghost s0 = self@;
        let object: usize = self.add_object(
            DispatcherObject::of(DispatcherHeader::new(DispatcherObjectType::Thread, 0)),
        );
        let timer: usize = self.add_object(Ktimer::new().object());
        let ghost s1 = self@;
        let id: usize = self.threads.len();
        let mut th: Kthread = t;
        th.object = object;
        th.timer = timer;
        self.threads.push(th);
        proof {
            assert(s1.threads == s0.threads);
            assert forall|k: int| 0 <= k < self@.threads.len() implies #[trigger] thread_sound(
                self@.threads[k],
                self@.objects.len() as int,
            ) by {
                if k < s1.threads.len() {
                    assert(thread_sound(s1.threads[k], s1.objects.len() as int));
                }
            }
            assert(self@ =~= with_thread(s0, t));
        }
        id
    }
}

/// `KeReadyThread`: make a thread runnable. The caller then requests a dispatch
/// interrupt.
pub fn ki_ready_thread(d: &mut Dispatcher, t: usize)
    requires
        old(d).wf(),
        t < old(d)@.threads.len(),
    ensures
        final(d).wf(),
        final(d)@ == readied(old(d)@, t),
{
    proof {
        lemma_readied(d@, t);
        assert(thread_sound(d@.threads[t as int], d@.objects.len() as int));
    }
    d.ready_thread(t);
}

// ---------------------------------------------------------------------------
// Waiting
// ---------------------------------------------------------------------------
/// What a wait comes to.
#[derive(Debug, Clone, Copy, PartialEq, Eq)]
pub enum WaitOutcome {
    /// It is over with this status.
    Done(NtStatus),
    /// The thread blocks; after it runs again its status is in its
    /// [`Kthread::wait_status`].
    Blocked(Switch),
}

/// The wait blocks for some objects.
pub open spec fn blocks_for(b: WaitBlocks, objects: Seq<usize>, n: int, active: bool) -> WaitBlocks
    decreases n,
{
    if n <= 0 {
        b
    } else {
        blocks_for(b, objects, n - 1, active).with(
            n - 1,
            KwaitBlock { object: objects[n - 1], wait_key: (n - 1) as u32, active },
        )
    }
}

/// The state with the current thread's wait laid out.
pub open spec fn prepared(s: Sched, objects: Seq<usize>, wait_type: WaitType) -> Sched {
    let th = s.threads[s.current as int];
    Sched {
        threads: s.threads.update(
            s.current as int,
            Kthread {
                wait_type,
                wait_count: objects.len() as usize,
                wait_timed: false,
                wait_blocks: blocks_for(th.wait_blocks, objects, objects.len() as int, false),
                ..th
            },
        ),
        ..s
    }
}

/// The links of a thread on some objects.
pub open spec fn links_for(objects: Seq<usize>, t: usize) -> Seq<WaitLink> {
    Seq::new(objects.len(), |i: int| WaitLink { object: objects[i], thread: t })
}

/// The larger of two numbers.
pub open spec fn at_least(a: int, b: int) -> int {
    if a >= b {
        a
    } else {
        b
    }
}

/// The state with the current thread, whose wait is laid out, on the wait lists
/// of its objects, its timeout armed, and waiting.
pub open spec fn blocked(s: Sched, objects: Seq<usize>, timeout: Option<u64>) -> Sched {
    let cur = s.current;
    let th = s.threads[cur as int];
    let links = s.links + links_for(objects, cur);
    let waiting = Kthread {
        wait_blocks: blocks_for(th.wait_blocks, objects, objects.len() as int, true),
        wait_timed: timeout is Some,
        state: ThreadState::Waiting,
        ..th
    };
    match timeout {
        None => Sched { links, threads: s.threads.update(cur as int, waiting), ..s },
        Some(ticks) => {
            let timer = DispatcherObject {
                due_tick: (s.tick + at_least(ticks as int, 1)) as u64,
                inserted: true,
                ..crate::ke::dispatcher::plain(
                    DispatcherHeader {
                        object_type: DispatcherObjectType::Timer,
                        signal_state: 0,
                    },
                )
            };
            with_earliest(
                Sched {
                    links: links.push(WaitLink { object: th.timer, thread: cur }),
                    threads: s.threads.update(cur as int, waiting),
                    objects: s.objects.update(th.timer as int, timer),
                    timers: s.timers.push(th.timer),
                    ..s
                },
            )
        },
    }
}

/// A wait of the current thread on some objects: satisfied at once, a poll that
/// fails, or blocking.
pub open spec fn waited(
    s: Sched,
    objects: Seq<usize>,
    wait_type: WaitType,
    timeout: Option<u64>,
    sp: Spaces,
) -> (Sched, WaitOutcome) {
    let cur = s.current;
    let s1 = prepared(s, objects, wait_type);
    let r = evaluate(s1, cur);
    if r != Satisfy::NotYet {
        let (objs, status) = outcome(s1, cur, r);
        (Sched { objects: objs, ..s1 }, WaitOutcome::Done(status))
    } else if timeout == Some(0u64) {
        (s1, WaitOutcome::Done(NtStatus(NtStatus::TIMEOUT)))
    } else {
        let (s2, sw) = switched(blocked(s1, objects, timeout), cur, sp);
        match sw {
            Some(w) => (s2, WaitOutcome::Blocked(w)),
            None => (s2, WaitOutcome::Done(s2.threads[cur as int].wait_status)),
        }
    }
}

pub proof fn lemma_blocks_for(b: WaitBlocks, objects: Seq<usize>, n: int, active: bool)
    requires
        0 <= n <= THREAD_WAIT_OBJECTS,
    ensures
        forall|i: int|
            0 <= i < n ==> #[trigger] blocks_for(b, objects, n, active).at(i) == (KwaitBlock {
                object: objects[i],
                wait_key: i as u32,
                active,
            }),
    decreases n,
{
    if n > 0 {
        lemma_blocks_for(b, objects, n - 1, active);
        assert forall|i: int| 0 <= i < n implies #[trigger] blocks_for(b, objects, n, active).at(i)
            == (KwaitBlock { object: objects[i], wait_key: i as u32, active }) by {
            if i < n - 1 {
                assert(blocks_for(b, objects, n - 1, active).at(i) == (KwaitBlock {
                    object: objects[i],
                    wait_key: i as u32,
                    active,
                }));
            }
        }
    }
}

pub proof fn lemma_prepared(s: Sched, objects: Seq<usize>, wait_type: WaitType)
    requires
        sched_sound(s),
        objects.len() <= THREAD_WAIT_OBJECTS,
        forall|i: int| 0 <= i < objects.len() ==> #[trigger] objects[i] < s.objects.len(),
    ensures
        sched_sound(prepared(s, objects, wait_type)),
{
    let n = objects.len() as int;
    let th = s.threads[s.current as int];
    assert(thread_sound(th, s.objects.len() as int));
    lemma_blocks_for(th.wait_blocks, objects, n, false);
    lemma_thread_update(
        s,
        s.current,
        Kthread {
            wait_type,
            wait_count: objects.len() as usize,
            wait_timed: false,
            wait_blocks: blocks_for(th.wait_blocks, objects, n, false),
            ..th
        },
    );
}

pub proof fn lemma_blocked(s: Sched, objects: Seq<usize>, timeout: Option<u64>)
    requires
        sched_sound(s),
        objects.len() <= THREAD_WAIT_OBJECTS,
        s.threads[s.current as int].wait_count == objects.len(),
        forall|i: int| 0 <= i < objects.len() ==> #[trigger] objects[i] < s.objects.len(),
    ensures
        sched_sound(blocked(s, objects, timeout)),
{
    let n = objects.len() as int;
    let th = s.threads[s.current as int];
    assert(thread_sound(th, s.objects.len() as int));
    lemma_blocks_for(th.wait_blocks, objects, n, true);
    let r = blocked(s, objects, timeout);
    assert forall|k: int| 0 <= k < r.threads.len() implies #[trigger] thread_sound(
        r.threads[k],
        r.objects.len() as int,
    ) by {
        assert(thread_sound(s.threads[k], s.objects.len() as int));
    }
    assert forall|i: int| 0 <= i < r.links.len() implies (#[trigger] r.links[i]).thread
        < r.threads.len() && r.links[i].object < r.objects.len() by {
        if i < s.links.len() {
            assert(r.links[i] == s.links[i]);
        } else if i < s.links.len() + n {
            assert(r.links[i] == links_for(objects, s.current)[i - s.links.len()]);
            assert(objects[i - s.links.len()] < s.objects.len());
        }
    }
    assert forall|i: int| 0 <= i < r.timers.len() implies #[trigger] r.timers[i]
        < r.objects.len() by {
        if i < s.timers.len() {
            assert(r.timers[i] == s.timers[i]);
        }
    }
    assert forall|p: int, i: int|
        0 <= p < PRIORITIES && 0 <= i < r.ready[p].len() implies #[trigger] r.ready[p][i]
        < r.threads.len() by {
        assert(s.ready[p][i] < s.threads.len());
    }
}

impl Dispatcher {
    /// Recompute the earliest deadline.
    pub(crate) fn update_earliest(&mut self)
        requires
            forall|i: int|
                0 <= i < old(self).timers@.len() ==> #[trigger] old(self).timers@[i] < old(
                    self,
                ).objects@.len(),
        ensures
            final(self)@ == with_earliest(old(self)@),
            final(self).ready == old(self).ready,
    {
        let ghost timers = self.timers@;
        let mut earliest: u64 = u64::MAX;
        let mut i: usize = 0;
        assert(timers.take(0) =~= Seq::empty());
        while i < self.timers.len()
            invariant
                i <= timers.len(),
                timers == self.timers@,
                self@ == old(self)@,
                self.ready == old(self).ready,
                forall|k: int|
                    0 <= k < timers.len() ==> #[trigger] timers[k] < self.objects@.len(),
                earliest == earliest_due(self@.objects, timers.take(i as int)),
            decreases timers.len() - i,
        {
            proof {
                let p = timers.take(i + 1);
                assert(p.drop_last() =~= timers.take(i as int));
                assert(p.last() == timers[i as int]);
                assert(timers[i as int] < self.objects@.len());
            }
            let due: u64 = self.objects[self.timers[i]].due_tick;
            if due < earliest {
                earliest = due;
            }
            i = i + 1;
        }
        assert(timers.take(i as int) =~= timers);
        self.earliest = earliest;
    }

    fn lay_out_blocks(&mut self, objects: &[usize], active: bool)
        requires
            old(self).current < old(self).threads@.len(),
            objects@.len() <= THREAD_WAIT_OBJECTS,
        ensures
            ({
                let s = old(self)@;
                let th = s.threads[s.current as int];
                final(self)@ == (Sched {
                    threads: s.threads.update(
                        s.current as int,
                        Kthread {
                            wait_blocks: blocks_for(
                                th.wait_blocks,
                                objects@,
                                objects@.len() as int,
                                active,
                            ),
                            ..th
                        },
                    ),
                    ..s
                })
            }),
            final(self).ready == old(self).ready,
    {
        let cur: usize = self.current;
        let mut th: Kthread = self.threads[cur];
        let ghost b0 = th.wait_blocks;
        let ghost th0 = th;
        let mut i: usize = 0;
        while i < objects.len()
            invariant
                i <= objects@.len() <= THREAD_WAIT_OBJECTS,
                th == (Kthread { wait_blocks: th.wait_blocks, ..th0 }),
                th.wait_blocks == blocks_for(b0, objects@, i as int, active),
            decreases objects@.len() - i,
        {
            let mut b: WaitBlocks = th.wait_blocks;
            b.set(i, KwaitBlock { object: objects[i], wait_key: i as u32, active });
            th.wait_blocks = b;
            i = i + 1;
        }
        self.threads.set(cur, th);
    }
}

/// `KiWaitForObjects`: the current thread waits until all or any of some objects
/// are signaled, or a timeout in clock ticks is over. A zero timeout polls. With
/// no object it sleeps.
pub fn ki_wait_for_objects(
    d: &mut Dispatcher,
    objects: &[usize],
    wait_type: WaitType,
    timeout: Option<u64>,
    sp: &Spaces,
) -> (r: WaitOutcome)
    requires
        old(d).wf(),
        objects@.len() <= THREAD_WAIT_OBJECTS,
        forall|i: int| 0 <= i < objects@.len() ==> #[trigger] objects@[i] < old(d)@.objects.len(),
        timeout matches Some(t) ==> old(d)@.tick + at_least(t as int, 1) <= u64::MAX,
    ensures
        final(d).wf(),
        (final(d)@, r) == waited(old(d)@, objects@, wait_type, timeout, *sp),
{
    let ghost s0 = d@;
    let cur: usize = d.current;
    proof {
        lemma_prepared(s0, objects@, wait_type);
    }
    d.lay_out_blocks(objects, false);
    let mut th: Kthread = d.threads[cur];
    th.wait_type = wait_type;
    th.wait_count = objects.len();
    th.wait_timed = false;
    d.threads.set(cur, th);
    let ghost s1 = d@;
    assert(s1 =~= prepared(s0, objects@, wait_type));
    let result: Satisfy = d.evaluate_wait(cur);
    if result != Satisfy::NotYet {
        let status: NtStatus = d.apply_consume(cur, result);
        proof {
            let t1 = s1.threads[cur as int];
            assert(thread_sound(t1, s1.objects.len() as int));
            lemma_consume_len(s1.objects, t1, cur, t1.wait_count as int);
            match result {
                Satisfy::Any(i) => {
                    assert(t1.wait_blocks.at(i as int).object < s1.objects.len());
                },
                _ => {},
            }
            assert(d@.objects.len() == s1.objects.len());
            lemma_same_len(s1, d@);
        }
        return WaitOutcome::Done(status);
    }
    match timeout {
        Some(t) => {
            if t == 0 {
                return WaitOutcome::Done(NtStatus(NtStatus::TIMEOUT));
            }
        },
        None => {},
    }
    proof {
        lemma_blocked(s1, objects@, timeout);
        assert(thread_sound(s1.threads[cur as int], s1.objects.len() as int));
    }
    let mut i: usize = 0;
    assert(links_for(objects@, cur).take(0) =~= Seq::empty());
    assert(s1.links + links_for(objects@, cur).take(0) =~= s1.links);
    while i < objects.len()
        invariant
            i <= objects@.len(),
            d@ == (Sched { links: s1.links + links_for(objects@, cur).take(i as int), ..s1 }),
            d.ready.wf(),
        decreases objects@.len() - i,
    {
        d.links.push(WaitLink { object: objects[i], thread: cur });
        i = i + 1;
        assert(d@.links =~= s1.links + links_for(objects@, cur).take(i as int));
    }
    assert(links_for(objects@, cur).take(i as int) =~= links_for(objects@, cur));
    d.lay_out_blocks(objects, true);
    let mut th: Kthread = d.threads[cur];
    th.state = ThreadState::Waiting;
    match timeout {
        None => {
            th.wait_timed = false;
            d.threads.set(cur, th);
        },
        Some(ticks) => {
            let mut timer: DispatcherObject = Ktimer::new().object();
            timer.due_tick = d.tick + if ticks >= 1 {
                ticks
            } else {
                1
            };
            timer.inserted = true;
            d.objects.set(th.timer, timer);
            d.timers.push(th.timer);
            d.links.push(WaitLink { object: th.timer, thread: cur });
            th.wait_timed = true;
            d.threads.set(cur, th);
            let ghost sb = d@;
            proof {
                let r = blocked(s1, objects@, timeout);
                assert(sb.timers =~= r.timers);
                assert(sb.objects =~= r.objects);
                assert forall|k: int| 0 <= k < sb.timers.len() implies #[trigger] sb.timers[k]
                    < sb.objects.len() by {
                    assert(r.timers[k] < r.objects.len());
                }
            }
            d.update_earliest();
        },
    }
    assert(d@ =~= blocked(s1, objects@, timeout));
    match d.switch_away(cur, sp) {
        Some(w) => WaitOutcome::Blocked(w),
        None => WaitOutcome::Done(d.threads[cur].wait_status),
    }
}

/// A change of object states keeps the state sound.
pub proof fn lemma_same_len(s: Sched, r: Sched)
    requires
        sched_sound(s),
        r == (Sched { objects: r.objects, ..s }),
        r.objects.len() == s.objects.len(),
    ensures
        sched_sound(r),
{
    assert forall|k: int| 0 <= k < r.threads.len() implies #[trigger] thread_sound(
        r.threads[k],
        r.objects.len() as int,
    ) by {
        assert(thread_sound(s.threads[k], s.objects.len() as int));
    }
}

/// `KiWaitForObject`: wait for one object.
pub fn ki_wait_for_object(d: &mut Dispatcher, object: usize, timeout: Option<u64>, sp: &Spaces) -> (r:
    WaitOutcome)
    requires
        old(d).wf(),
        object < old(d)@.objects.len(),
        timeout matches Some(t) ==> old(d)@.tick + at_least(t as int, 1) <= u64::MAX,
    ensures
        final(d).wf(),
        (final(d)@, r) == waited(old(d)@, seq![object], WaitType::Any, timeout, *sp),
{
    let one: [usize; 1] = [object];
    assert(one@ =~= seq![object]);
    ki_wait_for_objects(d, &one, WaitType::Any, timeout, sp)
}

/// `KeWaitForMultipleObjects`.
pub fn ke_wait_for_multiple_objects(
    d: &mut Dispatcher,
    objects: &[usize],
    wait_all: bool,
    timeout: Option<u64>,
    sp: &Spaces,
) -> (r: WaitOutcome)
    requires
        old(d).wf(),
        objects@.len() <= THREAD_WAIT_OBJECTS,
        forall|i: int| 0 <= i < objects@.len() ==> #[trigger] objects@[i] < old(d)@.objects.len(),
        timeout matches Some(t) ==> old(d)@.tick + at_least(t as int, 1) <= u64::MAX,
    ensures
        final(d).wf(),
        (final(d)@, r) == waited(
            old(d)@,
            objects@,
            if wait_all {
                WaitType::All
            } else {
                WaitType::Any
            },
            timeout,
            *sp,
        ),
{
    let wait_type: WaitType = if wait_all {
        WaitType::All
    } else {
        WaitType::Any
    };
    ki_wait_for_objects(d, objects, wait_type, timeout, sp)
}

/// `KeWaitForSingleObject`: wait for one object without end.
pub fn ke_wait_for_single_object(d: &mut Dispatcher, object: usize, sp: &Spaces) -> (r: WaitOutcome)
    requires
        old(d).wf(),
        object < old(d)@.objects.len(),
    ensures
        final(d).wf(),
        (final(d)@, r) == waited(old(d)@, seq![object], WaitType::Any, None, *sp),
{
    ki_wait_for_object(d, object, None, sp)
}

/// `KeWaitForSingleObject` with a timeout in clock ticks; 0 polls.
pub fn ke_wait_for_single_object_timeout(
    d: &mut Dispatcher,
    object: usize,
    timeout: Option<u64>,
    sp: &Spaces,
) -> (r: WaitOutcome)
    requires
        old(d).wf(),
        object < old(d)@.objects.len(),
        timeout matches Some(t) ==> old(d)@.tick + at_least(t as int, 1) <= u64::MAX,
    ensures
        final(d).wf(),
        (final(d)@, r) == waited(old(d)@, seq![object], WaitType::Any, timeout, *sp),
{
    ki_wait_for_object(d, object, timeout, sp)
}

/// `KeWaitForMutexObject`: acquire a mutant, which its owner does again at once.
pub fn ke_wait_for_mutant(d: &mut Dispatcher, mutant: usize, sp: &Spaces) -> (r: WaitOutcome)
    requires
        old(d).wf(),
        mutant < old(d)@.objects.len(),
    ensures
        final(d).wf(),
        (final(d)@, r) == waited(old(d)@, seq![mutant], WaitType::Any, None, *sp),
{
    ki_wait_for_object(d, mutant, None, sp)
}

/// `KeDelayExecutionThread`: sleep for some clock ticks.
pub fn ke_delay_execution_thread(d: &mut Dispatcher, ticks: u64, sp: &Spaces) -> (r: WaitOutcome)
    requires
        old(d).wf(),
        old(d)@.tick + at_least(ticks as int, 1) <= u64::MAX,
    ensures
        final(d).wf(),
        (final(d)@, r) == waited(
            old(d)@,
            Seq::<usize>::empty(),
            WaitType::All,
            Some(ticks),
            *sp,
        ),
{
    ki_delay_thread(d, ticks, sp)
}

/// The core of sleeping: a wait for no objects, which only its timeout ends.
pub fn ki_delay_thread(d: &mut Dispatcher, ticks: u64, sp: &Spaces) -> (r: WaitOutcome)
    requires
        old(d).wf(),
        old(d)@.tick + at_least(ticks as int, 1) <= u64::MAX,
    ensures
        final(d).wf(),
        (final(d)@, r) == waited(
            old(d)@,
            Seq::<usize>::empty(),
            WaitType::All,
            Some(ticks),
            *sp,
        ),
{
    let none: [usize; 0] = [];
    assert(none@ =~= Seq::<usize>::empty());
    ki_wait_for_objects(d, &none, WaitType::All, Some(ticks), sp)
}

} // verus!
