//! Signaling dispatcher objects, timers, the clock and preemption.
use crate::ke::dispatcher::{DispatcherHeader, DispatcherObject};
use crate::ke::ready::{highest_ready, PRIORITIES};
use crate::ke::scheduler::{
    lemma_readied, lemma_same_len, lemma_switched, lemma_thread_update, lemma_without_timer,
    readied, sched_sound, switched, thread_sound, wait_tested, with_earliest, with_signal,
    without_timer, Dispatcher, Sched, Spaces, Switch,
};
use crate::ke::thread::{Kthread, ThreadState, DEFAULT_QUANTUM};
use crate::rtl::NtStatus;
use vstd::prelude::*;

verus! {

/// Most timers that one pass expires.
pub const EXPIRE_MAX: usize = 16;

/// Status of a release beyond a semaphore's limit.
pub const SEMAPHORE_LIMIT_EXCEEDED: u32 = 0xC000_0047;

/// Status of a release by a thread that does not own the mutant.
pub const MUTANT_NOT_OWNED: u32 = 0xC000_0046;

impl Dispatcher {
    fn set_signal(&mut self, o: usize, v: i32)
        requires
            old(self).wf(),
            o < old(self)@.objects.len(),
        ensures
            final(self).wf(),
            final(self)@ == with_signal(old(self)@, o, v),
    {
        let ghost s0 = self@;
        let mut obj: DispatcherObject = self.objects[o];
        obj.header.signal_state = v;
        self.objects.set(o, obj);
        proof {
            assert(self@ =~= with_signal(s0, o, v));
            lemma_same_len(s0, self@);
        }
    }
}

/// `KiSignalObject`: latch an object signaled and wake whoever can go on.
/// Returns the previous state and whether a dispatch interrupt is needed.
pub fn ki_signal_object(d: &mut Dispatcher, o: usize) -> (r: (i32, bool))
    requires
        old(d).wf(),
        o < old(d)@.objects.len(),
    ensures
        final(d).wf(),
        r.0 == old(d)@.objects[o as int].header.signal_state,
        ({
            let (s, woke) = wait_tested(with_signal(old(d)@, o, 1), o);
            final(d)@ == s && r.1 == (woke > 0)
        }),
{
    let prev: i32 = d.objects[o].header.signal_state;
    d.set_signal(o, 1);
    let woke: usize = d.wait_test(o);
    (prev, woke > 0)
}

/// `KeResetEvent`: back to non-signaled. Returns the previous state.
pub fn ki_reset_object(d: &mut Dispatcher, o: usize) -> (prev: i32)
    requires
        old(d).wf(),
        o < old(d)@.objects.len(),
    ensures
        final(d).wf(),
        prev == old(d)@.objects[o as int].header.signal_state,
        final(d)@ == with_signal(old(d)@, o, 0),
{
    let prev: i32 = d.objects[o].header.signal_state;
    d.set_signal(o, 0);
    prev
}

/// `KeReleaseSemaphore`: add to the count and wake whoever can go on. Fails, with
/// nothing changed, when the adjustment is not positive or the count would pass
/// the limit. Returns the previous count and whether a dispatch interrupt is
/// needed.
pub fn ki_release_semaphore(d: &mut Dispatcher, o: usize, adjustment: i32) -> (r: Result<
    (i32, bool),
    NtStatus,
>)
    requires
        old(d).wf(),
        o < old(d)@.objects.len(),
    ensures
        final(d).wf(),
        ({
            let obj = old(d)@.objects[o as int];
            let sum = obj.header.signal_state + adjustment;
            if adjustment <= 0 || sum > obj.limit {
                r == Err::<(i32, bool), _>(NtStatus(SEMAPHORE_LIMIT_EXCEEDED)) && final(d)@ == old(
                    d,
                )@
            } else {
                let (s, woke) = wait_tested(with_signal(old(d)@, o, sum as i32), o);
                r == Ok::<(i32, bool), NtStatus>((obj.header.signal_state, woke > 0)) && final(d)@
                    == s
            }
        }),
{
    let obj: DispatcherObject = d.objects[o];
    let prev: i32 = obj.header.signal_state;
    if adjustment <= 0 {
        return Err(NtStatus(SEMAPHORE_LIMIT_EXCEEDED));
    }
    let sum: i64 = prev as i64 + adjustment as i64;
    if sum > obj.limit as i64 {
        return Err(NtStatus(SEMAPHORE_LIMIT_EXCEEDED));
    }
    d.set_signal(o, sum as i32);
    let woke: usize = d.wait_test(o);
    Ok((prev, woke > 0))
}

/// One more, without carry.
pub open spec fn one_more(x: i32) -> i32 {
    if x == i32::MAX {
        i32::MIN
    } else {
        (x + 1) as i32
    }
}

/// A mutant given up by one level: when the count is back above 0 it has no owner
/// and its waiters are tested.
pub open spec fn mutant_released(s: Sched, o: usize) -> (Sched, int) {
    let obj = s.objects[o as int];
    let n = one_more(obj.header.signal_state);
    let s1 = with_signal(s, o, n);
    if n > 0 {
        wait_tested(
            Sched {
                objects: s1.objects.update(
                    o as int,
                    DispatcherObject { owner: None, ..s1.objects[o as int] },
                ),
                ..s1
            },
            o,
        )
    } else {
        (s1, 0)
    }
}

/// `KeReleaseMutant`: the current thread gives up one level of ownership. Fails,
/// with nothing changed, when it is not the owner.
pub fn ki_release_mutant(d: &mut Dispatcher, o: usize) -> (r: Result<(i32, bool), NtStatus>)
    requires
        old(d).wf(),
        o < old(d)@.objects.len(),
    ensures
        final(d).wf(),
        ({
            let obj = old(d)@.objects[o as int];
            if obj.owner != Some(old(d)@.current) {
                r == Err::<(i32, bool), _>(NtStatus(MUTANT_NOT_OWNED)) && final(d)@ == old(d)@
            } else {
                let (s, woke) = mutant_released(old(d)@, o);
                r == Ok::<(i32, bool), NtStatus>((obj.header.signal_state, woke > 0)) && final(d)@
                    == s
            }
        }),
{
    let ghost s0 = d@;
    let obj: DispatcherObject = d.objects[o];
    let owned: bool = match obj.owner {
        Some(t) => t == d.current,
        None => false,
    };
    if !owned {
        return Err(NtStatus(MUTANT_NOT_OWNED));
    }
    let prev: i32 = obj.header.signal_state;
    let n: i32 = prev.wrapping_add(1);
    d.set_signal(o, n);
    let mut woke: usize = 0;
    if n > 0 {
        let ghost s1 = d@;
        let mut free: DispatcherObject = d.objects[o];
        free.owner = None;
        d.objects.set(o, free);
        proof {
            lemma_same_len(s1, d@);
        }
        woke = d.wait_test(o);
    }
    Ok((prev, woke > 0))
}

// ---------------------------------------------------------------------------
// Timers
// ---------------------------------------------------------------------------
/// The state with a timer armed for `due`, replacing an earlier setting.
pub open spec fn timer_set(s: Sched, o: usize, due: u64, dpc: Option<usize>) -> Sched {
    let obj = s.objects[o as int];
    let timers = if obj.inserted {
        without_timer(s.timers, o)
    } else {
        s.timers
    };
    with_earliest(
        Sched {
            timers: timers.push(o),
            objects: s.objects.update(
                o as int,
                DispatcherObject {
                    header: DispatcherHeader { signal_state: 0, ..obj.header },
                    due_tick: due,
                    dpc,
                    inserted: true,
                    ..obj
                },
            ),
            ..s
        },
    )
}

/// The state with a timer no longer armed.
pub open spec fn timer_dropped(s: Sched, o: usize) -> Sched {
    let obj = s.objects[o as int];
    Sched {
        timers: without_timer(s.timers, o),
        objects: s.objects.update(o as int, DispatcherObject { inserted: false, ..obj }),
        ..s
    }
}

proof fn lemma_timers_sound(s: Sched, timers: Seq<usize>, objects: Seq<DispatcherObject>, e: u64)
    requires
        sched_sound(s),
        objects.len() == s.objects.len(),
        forall|i: int| 0 <= i < timers.len() ==> #[trigger] timers[i] < s.objects.len(),
    ensures
        sched_sound(Sched { timers, objects, earliest: e, ..s }),
{
    let r = Sched { timers, objects, earliest: e, ..s };
    assert forall|k: int| 0 <= k < r.threads.len() implies #[trigger] thread_sound(
        r.threads[k],
        r.objects.len() as int,
    ) by {
        assert(thread_sound(s.threads[k], s.objects.len() as int));
    }
}

proof fn lemma_dropped_in_range(s: Sched, o: usize)
    requires
        sched_sound(s),
    ensures
        forall|i: int|
            0 <= i < without_timer(s.timers, o).len() ==> #[trigger] without_timer(s.timers, o)[i]
                < s.objects.len(),
{
    lemma_without_timer(s.timers, o);
    let r = without_timer(s.timers, o);
    assert forall|i: int| 0 <= i < r.len() implies #[trigger] r[i] < s.objects.len() by {
        assert(s.timers.contains(r[i]));
        let k = choose|k: int| 0 <= k < s.timers.len() && s.timers[k] == r[i];
        assert(s.timers[k] < s.objects.len());
    }
}

/// `KeSetTimer`: arm a timer for an absolute tick, with a deferred call to queue
/// on expiry. Returns whether it was armed already.
pub fn ke_set_timer(d: &mut Dispatcher, o: usize, due_tick: u64, dpc: Option<usize>) -> (was_set:
    bool)
    requires
        old(d).wf(),
        o < old(d)@.objects.len(),
    ensures
        final(d).wf(),
        was_set == old(d)@.objects[o as int].inserted,
        final(d)@ == timer_set(old(d)@, o, due_tick, dpc),
{
    let ghost s0 = d@;
    proof {
        lemma_dropped_in_range(s0, o);
    }
    let mut obj: DispatcherObject = d.objects[o];
    let was_set: bool = obj.inserted;
    if was_set {
        d.drop_timer(o);
    }
    let ghost timers = d@.timers;
    obj.header.signal_state = 0;
    obj.due_tick = due_tick;
    obj.dpc = dpc;
    obj.inserted = true;
    d.objects.set(o, obj);
    d.timers.push(o);
    proof {
        assert forall|i: int| 0 <= i < d@.timers.len() implies #[trigger] d@.timers[i]
            < s0.objects.len() by {
            if i < timers.len() {
                assert(d@.timers[i] == timers[i]);
            }
        }
        lemma_timers_sound(s0, d@.timers, d@.objects, s0.earliest);
    }
    let ghost s1 = d@;
    d.update_earliest();
    proof {
        lemma_timers_sound(s1, d@.timers, d@.objects, d@.earliest);
        assert(d@ =~= timer_set(s0, o, due_tick, dpc));
    }
    was_set
}

/// `KeCancelTimer`: disarm a timer. Returns whether it was armed.
pub fn ke_cancel_timer(d: &mut Dispatcher, o: usize) -> (was_set: bool)
    requires
        old(d).wf(),
        o < old(d)@.objects.len(),
    ensures
        final(d).wf(),
        was_set == old(d)@.objects[o as int].inserted,
        final(d)@ == if old(d)@.objects[o as int].inserted {
            with_earliest(timer_dropped(old(d)@, o))
        } else {
            old(d)@
        },
{
    let ghost s0 = d@;
    let was_set: bool = d.objects[o].inserted;
    if was_set {
        d.disarm(o);
        let ghost s1 = d@;
        proof {
            assert forall|k: int| 0 <= k < s1.timers.len() implies #[trigger] s1.timers[k]
                < s1.objects.len() by {}
        }
        d.update_earliest();
        proof {
            lemma_timers_sound(s1, d@.timers, d@.objects, d@.earliest);
        }
    }
    was_set
}

impl Dispatcher {
    fn disarm(&mut self, o: usize)
        requires
            old(self).wf(),
            o < old(self)@.objects.len(),
        ensures
            final(self).wf(),
            final(self)@ == timer_dropped(old(self)@, o),
    {
        let ghost s0 = self@;
        proof {
            lemma_dropped_in_range(s0, o);
        }
        self.drop_timer(o);
        let mut obj: DispatcherObject = self.objects[o];
        obj.inserted = false;
        self.objects.set(o, obj);
        proof {
            lemma_timers_sound(s0, self@.timers, self@.objects, s0.earliest);
            assert(self@ =~= timer_dropped(s0, o));
        }
    }
}

/// The timers that are due, oldest setting first, at most `room` of them.
pub open spec fn due_timers(s: Sched, i: int, room: int) -> Seq<usize>
    decreases s.timers.len() - i,
{
    if i < 0 || i >= s.timers.len() || room <= 0 {
        Seq::empty()
    } else if s.objects[s.timers[i] as int].due_tick <= s.tick {
        seq![s.timers[i]] + due_timers(s, i + 1, room - 1)
    } else {
        due_timers(s, i + 1, room)
    }
}

/// The state after some due timers have fired, from timer `i` on, and the
/// deferred calls to queue. A timer disarmed meanwhile does not fire.
pub open spec fn fired(s: Sched, due: Seq<usize>, i: int) -> (Sched, Seq<usize>)
    decreases due.len() - i,
{
    if i < 0 || i >= due.len() {
        (s, Seq::empty())
    } else {
        let o = due[i];
        let obj = s.objects[o as int];
        if !obj.inserted {
            fired(s, due, i + 1)
        } else {
            let s1 = wait_tested(with_signal(timer_dropped(s, o), o, 1), o).0;
            let (s2, dpcs) = fired(s1, due, i + 1);
            match s1.objects[o as int].dpc {
                Some(k) => (s2, seq![k] + dpcs),
                None => (s2, dpcs),
            }
        }
    }
}

/// The state after due timers have expired, and the deferred calls to queue.
pub open spec fn expired(s: Sched) -> (Sched, Seq<usize>) {
    if s.earliest > s.tick {
        (s, Seq::empty())
    } else {
        let (s1, dpcs) = fired(s, due_timers(s, 0, EXPIRE_MAX as int), 0);
        (with_earliest(s1), dpcs)
    }
}

proof fn lemma_due(s: Sched, i: int, room: int)
    requires
        sched_sound(s),
        0 <= i,
    ensures
        forall|k: int|
            0 <= k < due_timers(s, i, room).len() ==> #[trigger] due_timers(s, i, room)[k]
                < s.objects.len(),
    decreases s.timers.len() - i,
{
    if i < s.timers.len() && room > 0 {
        assert(s.timers[i] < s.objects.len());
        lemma_due(s, i + 1, room - 1);
        lemma_due(s, i + 1, room);
        let r = due_timers(s, i, room);
        let rest = due_timers(s, i + 1, room - 1);
        assert forall|k: int| 0 <= k < r.len() implies #[trigger] r[k] < s.objects.len() by {
            if s.objects[s.timers[i] as int].due_tick <= s.tick {
                assert(r == seq![s.timers[i]] + rest);
                if k > 0 {
                    assert(r[k] == rest[k - 1]);
                } else {
                    assert(r[0] == s.timers[i]);
                }
            } else {
                assert(r == due_timers(s, i + 1, room));
            }
        }
    }
}

/// Expire due timers: disarm each, latch it signaled and wake its waiters.
/// Returns the deferred calls to queue.
pub fn ki_expire_timers(d: &mut Dispatcher) -> (dpcs: Vec<usize>)
    requires
        old(d).wf(),
    ensures
        final(d).wf(),
        (final(d)@, dpcs@) == expired(old(d)@),
        final(d)@.threads.len() == old(d)@.threads.len(),
        final(d)@.current == old(d)@.current,
        final(d)@.idle == old(d)@.idle,
{
    let ghost s0 = d@;
    let mut dpcs: Vec<usize> = Vec::new();
    if d.earliest > d.tick {
        return dpcs;
    }
    let mut due: Vec<usize> = Vec::new();
    let mut i: usize = 0;
    assert(Seq::<usize>::empty() + due_timers(s0, 0, 16) =~= due_timers(s0, 0, 16));
    while i < d.timers.len() && due.len() < EXPIRE_MAX
        invariant
            d@ == s0,
            d.wf(),
            i <= s0.timers.len(),
            due@.len() <= EXPIRE_MAX,
            due_timers(s0, 0, 16) == due@ + due_timers(s0, i as int, 16 - due@.len()),
        decreases s0.timers.len() - i,
    {
        let o: usize = d.timers[i];
        assert(s0.timers[i as int] < s0.objects.len());
        let ghost acc = due@;
        if d.objects[o].due_tick <= d.tick {
            due.push(o);
            assert(acc + (seq![o] + due_timers(s0, i + 1, 16 - acc.len() - 1)) =~= due@
                + due_timers(s0, i + 1, 16 - due@.len()));
        }
        i = i + 1;
    }
    proof {
        assert(due@ + Seq::<usize>::empty() =~= due@);
        assert(due@ == due_timers(s0, 0, 16));
        lemma_due(s0, 0, 16);
    }
    let mut j: usize = 0;
    assert(Seq::<usize>::empty() + fired(s0, due@, 0).1 =~= fired(s0, due@, 0).1);
    while j < due.len()
        invariant
            d.wf(),
            j <= due@.len(),
            d@.objects.len() == s0.objects.len(),
            d@.threads.len() == s0.threads.len(),
            d@.current == s0.current,
            d@.idle == s0.idle,
            forall|k: int| 0 <= k < due@.len() ==> #[trigger] due@[k] < s0.objects.len(),
            fired(s0, due@, 0) == (
                fired(d@, due@, j as int).0,
                dpcs@ + fired(d@, due@, j as int).1,
            ),
        decreases due@.len() - j,
    {
        let o: usize = due[j];
        assert(due@[j as int] < s0.objects.len());
        let ghost acc = dpcs@;
        if d.objects[o].inserted {
            d.disarm(o);
            d.set_signal(o, 1);
            let woke: usize = d.wait_test(o);
            match d.objects[o].dpc {
                Some(k) => {
                    dpcs.push(k);
                    assert(acc + (seq![k] + fired(d@, due@, j + 1).1) =~= dpcs@ + fired(
                        d@,
                        due@,
                        j + 1,
                    ).1);
                },
                None => {},
            }
        }
        j = j + 1;
    }
    assert(dpcs@ + Seq::<usize>::empty() =~= dpcs@);
    let ghost s1 = d@;
    proof {
        assert forall|k: int| 0 <= k < s1.timers.len() implies #[trigger] s1.timers[k]
            < s1.objects.len() by {}
    }
    d.update_earliest();
    proof {
        lemma_timers_sound(s1, d@.timers, d@.objects, d@.earliest);
    }
    dpcs
}

// ---------------------------------------------------------------------------
// Clock and preemption
// ---------------------------------------------------------------------------
/// The tick after `t`.
pub open spec fn next_tick(t: u64) -> u64 {
    if t == u64::MAX {
        0
    } else {
        (t + 1) as u64
    }
}

/// A clock tick: the running thread's quantum goes down by one unless it is the
/// idle thread. The second part says whether a dispatch interrupt is needed.
pub open spec fn ticked(s: Sched) -> (Sched, bool) {
    let now = next_tick(s.tick);
    let th = s.threads[s.current as int];
    let left = crate::ke::scheduler::one_less(th.quantum);
    let timer = s.earliest <= now;
    if s.current == s.idle {
        (Sched { tick: now, ..s }, timer)
    } else {
        (
            Sched {
                tick: now,
                threads: s.threads.update(s.current as int, Kthread { quantum: left, ..th }),
                quantum_end: s.quantum_end || left <= 0,
                ..s
            },
            timer || left <= 0,
        )
    }
}

/// The clock and the quantum flag do not bear on soundness.
proof fn lemma_clock(s: Sched, tick: u64, quantum_end: bool)
    requires
        sched_sound(s),
    ensures
        sched_sound(Sched { tick, quantum_end, ..s }),
{
    let r = Sched { tick, quantum_end, ..s };
    assert forall|k: int| 0 <= k < r.threads.len() implies #[trigger] thread_sound(
        r.threads[k],
        r.objects.len() as int,
    ) by {
        assert(thread_sound(s.threads[k], s.objects.len() as int));
    }
}

/// The clock interrupt. Returns whether a dispatch interrupt is needed.
pub fn ki_clock_tick(d: &mut Dispatcher) -> (request: bool)
    requires
        old(d).wf(),
    ensures
        final(d).wf(),
        (final(d)@, request) == ticked(old(d)@),
{
    let ghost s0 = d@;
    let now: u64 = d.tick.wrapping_add(1);
    d.tick = now;
    let mut request: bool = false;
    let cur: usize = d.current;
    if cur != d.idle {
        let mut th: Kthread = d.threads[cur];
        proof {
            assert(thread_sound(s0.threads[cur as int], s0.objects.len() as int));
        }
        th.quantum = th.quantum.wrapping_sub(1);
        proof {
            lemma_thread_update(s0, cur, th);
        }
        d.threads.set(cur, th);
        if th.quantum <= 0 {
            d.quantum_end = true;
            request = true;
        }
    }
    if d.earliest <= now {
        request = true;
    }
    proof {
        lemma_clock(Sched { threads: d@.threads, ..s0 }, d@.tick, d@.quantum_end);
        assert(d@ =~= ticked(s0).0);
    }
    request
}

/// Whether the current thread is replaced, and the state with it back on its
/// queue if it is: the idle thread gives way to anything ready, a thread at the
/// end of its quantum to the next of its priority, any other only to a higher
/// priority.
pub open spec fn preempted(s: Sched) -> (Sched, bool) {
    let cur = s.current;
    let th = s.threads[cur as int];
    let s1 = Sched { quantum_end: false, ..s };
    let best = highest_ready(s.ready, PRIORITIES as int);
    if cur == s.idle {
        (s1, best is Some)
    } else if s.quantum_end {
        (
            readied(
                Sched {
                    threads: s.threads.update(
                        cur as int,
                        Kthread { quantum: DEFAULT_QUANTUM, ..th },
                    ),
                    ..s1
                },
                cur,
            ),
            true,
        )
    } else if best matches Some(p) && p > th.priority {
        if th.state == ThreadState::Running {
            (readied(s1, cur), true)
        } else {
            (s1, true)
        }
    } else {
        (s1, false)
    }
}

/// What a dispatch interrupt does after the deferred calls have run: expire
/// timers, then change threads if need be.
pub open spec fn dispatched(s: Sched, sp: Spaces) -> (Sched, Seq<usize>, Option<Switch>) {
    let (s1, dpcs) = expired(s);
    let (s2, resched) = preempted(s1);
    if resched {
        let (s3, w) = switched(s2, s2.current, sp);
        (s3, dpcs, w)
    } else {
        (s2, dpcs, None)
    }
}

/// The dispatch interrupt. Returns the deferred calls to queue and the change of
/// threads, if any.
pub fn ki_dispatch_interrupt(d: &mut Dispatcher, sp: &Spaces) -> (r: (Vec<usize>, Option<Switch>))
    requires
        old(d).wf(),
    ensures
        final(d).wf(),
        (final(d)@, r.0@, r.1) == dispatched(old(d)@, *sp),
{
    let dpcs: Vec<usize> = ki_expire_timers(d);
    let ghost s1 = d@;
    let quantum_end: bool = d.quantum_end;
    d.quantum_end = false;
    let ghost s2 = d@;
    let cur: usize = d.current;
    proof {
        lemma_clock(s1, s1.tick, false);
        assert(thread_sound(s2.threads[cur as int], s2.objects.len() as int));
    }
    let mut th: Kthread = d.threads[cur];
    let resched: bool = if cur == d.idle {
        d.ready.highest().is_some()
    } else if quantum_end {
        th.quantum = DEFAULT_QUANTUM;
        proof {
            lemma_thread_update(s2, cur, th);
        }
        d.threads.set(cur, th);
        proof {
            lemma_readied(d@, cur);
        }
        d.ready_thread(cur);
        true
    } else {
        let higher: bool = match d.ready.highest() {
            Some(p) => p > th.priority,
            None => false,
        };
        if higher && th.state == ThreadState::Running {
            proof {
                lemma_readied(s2, cur);
            }
            d.ready_thread(cur);
        }
        higher
    };
    assert((d@, resched) == preempted(s1));
    if resched {
        proof {
            lemma_switched(d@, cur, *sp);
        }
        let w: Option<Switch> = d.switch_away(cur, sp);
        (dpcs, w)
    } else {
        (dpcs, None)
    }
}

/// `KeQueryTickCount`.
pub fn ke_query_tick_count(d: &Dispatcher) -> (t: u64)
    ensures
        t == d@.tick,
{
    d.tick
}

/// The state after the current thread has ended: its joiners are woken, and the
/// processor goes to another thread.
pub open spec fn terminated(s: Sched, sp: Spaces) -> (Sched, Option<Switch>) {
    let cur = s.current;
    let o = s.threads[cur as int].object;
    let s1 = wait_tested(with_signal(s, o, 1), o).0;
    let th = s1.threads[cur as int];
    switched(
        Sched {
            threads: s1.threads.update(
                cur as int,
                Kthread { state: ThreadState::Terminated, ..th },
            ),
            ..s1
        },
        cur,
        sp,
    )
}

/// The current thread ends itself: signal joiners and give up the processor for
/// good.
pub fn ki_terminate_current_thread(d: &mut Dispatcher, sp: &Spaces) -> (r: Option<Switch>)
    requires
        old(d).wf(),
    ensures
        final(d).wf(),
        (final(d)@, r) == terminated(old(d)@, *sp),
{
    let cur: usize = d.current;
    proof {
        assert(thread_sound(d@.threads[cur as int], d@.objects.len() as int));
    }
    let o: usize = d.threads[cur].object;
    d.set_signal(o, 1);
    let woke: usize = d.wait_test(o);
    let ghost s1 = d@;
    proof {
        assert(thread_sound(s1.threads[cur as int], s1.objects.len() as int));
    }
    let mut th: Kthread = d.threads[cur];
    th.state = ThreadState::Terminated;
    proof {
        lemma_thread_update(s1, cur, th);
    }
    d.threads.set(cur, th);
    d.switch_away(cur, sp)
}

} // verus!
