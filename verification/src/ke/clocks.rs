//! What timers, the clock and preemption promise.
use crate::ke::dispatcher::DispatcherObject;
use crate::ke::ready::{lemma_highest, PRIORITIES};
use crate::ke::scheduler::{
    earliest_due, sched_sound, switch_plan, switched, thread_sound, wait_tested, with_earliest,
    with_signal, without_timer, Sched, Spaces,
};
use crate::ke::signal::{
    due_timers, expired, fired, preempted, terminated, ticked, timer_dropped, timer_set,
};
use crate::ke::thread::{Kthread, ThreadState};
use vstd::prelude::*;

verus! {

/// The earliest deadline is that of an armed timer, and none is before it.
pub proof fn the_earliest_deadline_is_the_least(objects: Seq<DispatcherObject>, timers: Seq<usize>)
    ensures
        forall|i: int|
            0 <= i < timers.len() ==> earliest_due(objects, timers) <= objects[(
            #[trigger] timers[i]) as int].due_tick,
        timers.len() == 0 ==> earliest_due(objects, timers) == u64::MAX,
        timers.len() > 0 ==> earliest_due(objects, timers) == u64::MAX || exists|i: int|
            0 <= i < timers.len() && objects[(#[trigger] timers[i]) as int].due_tick
                == earliest_due(objects, timers),
    decreases timers.len(),
{
    if timers.len() > 0 {
        let init = timers.drop_last();
        the_earliest_deadline_is_the_least(objects, init);
        let e = earliest_due(objects, timers);
        let rest = earliest_due(objects, init);
        assert forall|i: int| 0 <= i < timers.len() implies e <= objects[(
        #[trigger] timers[i]) as int].due_tick by {
            if i < init.len() {
                assert(init[i] == timers[i]);
            }
        }
        if e == rest && e != u64::MAX && objects[timers.last() as int].due_tick != e {
            assert(init.len() > 0);
            let k = choose|k: int|
                0 <= k < init.len() && objects[(#[trigger] init[k]) as int].due_tick == rest;
            assert(timers[k] == init[k]);
        } else {
            assert(timers[timers.len() - 1] == timers.last());
        }
    }
}

proof fn lemma_without_timer_absent(timers: Seq<usize>, o: usize)
    ensures
        !without_timer(timers, o).contains(o),
        forall|x: usize|
            x != o ==> (#[trigger] without_timer(timers, o).contains(x) <==> timers.contains(x)),
        timers.no_duplicates() ==> without_timer(timers, o).no_duplicates(),
    decreases timers.len(),
{
    if timers.len() > 0 {
        let init = timers.drop_last();
        lemma_without_timer_absent(init, o);
        let rest = without_timer(init, o);
        let r = without_timer(timers, o);
        if timers.last() != o {
            assert(r == rest.push(timers.last()));
            assert forall|k: int| 0 <= k < r.len() implies r[k] != o by {
                if k < rest.len() {
                    assert(rest.contains(rest[k]));
                }
            }
        }
        assert forall|x: usize| x != o implies (#[trigger] r.contains(x) <==> timers.contains(
            x,
        )) by {
            if timers.contains(x) {
                let k = choose|k: int| 0 <= k < timers.len() && timers[k] == x;
                if k < init.len() {
                    assert(init[k] == x);
                    assert(rest.contains(x));
                    let j = choose|j: int| 0 <= j < rest.len() && rest[j] == x;
                    assert(r[j] == x);
                } else {
                    assert(r[r.len() - 1] == x);
                }
            }
            if r.contains(x) {
                let j = choose|j: int| 0 <= j < r.len() && r[j] == x;
                if j < rest.len() {
                    assert(rest[j] == x);
                    assert(rest.contains(x));
                    assert(init.contains(x));
                    let k = choose|k: int| 0 <= k < init.len() && init[k] == x;
                    assert(timers[k] == x);
                } else {
                    assert(timers[timers.len() - 1] == x);
                }
            }
        }
        if timers.no_duplicates() {
            assert forall|j: int, k: int| 0 <= j < init.len() && 0 <= k < init.len() && j
                != k implies init[j] != init[k] by {
                assert(timers[j] != timers[k]);
            }
            if timers.last() != o {
                assert(!rest.contains(timers.last())) by {
                    if rest.contains(timers.last()) {
                        assert(init.contains(timers.last()));
                        let k = choose|k: int| 0 <= k < init.len() && init[k] == timers.last();
                        assert(timers[k] == timers[timers.len() - 1]);
                    }
                }
                assert forall|j: int, k: int| 0 <= j < r.len() && 0 <= k < r.len() && j
                    != k implies r[j] != r[k] by {
                    if j < rest.len() && k < rest.len() {
                        assert(rest[j] != rest[k]);
                    } else if j < rest.len() {
                        assert(rest.contains(rest[j]));
                    } else if k < rest.len() {
                        assert(rest.contains(rest[k]));
                    }
                }
            }
        }
    }
}

/// A timer that is set is armed for its deadline, not signaled, and listed once, behind all
/// others; no other object changes, and no deadline is missed: the earliest is none later
/// than this one.
pub proof fn a_set_timer_is_armed(s: Sched, o: usize, due: u64, dpc: Option<usize>)
    requires
        o < s.objects.len(),
        s.objects[o as int].inserted || !s.timers.contains(o),
    ensures
        ({
            let r = timer_set(s, o, due, dpc);
            &&& r.objects[o as int].due_tick == due
            &&& r.objects[o as int].inserted
            &&& r.objects[o as int].dpc == dpc
            &&& r.objects[o as int].header.signal_state == 0
            &&& r.objects[o as int].header.object_type == s.objects[o as int].header.object_type
            &&& r.timers.last() == o
            &&& !r.timers.drop_last().contains(o)
            &&& r.earliest <= due
            &&& r.objects.len() == s.objects.len()
            &&& forall|x: int|
                0 <= x < s.objects.len() && x != o ==> #[trigger] r.objects[x] == s.objects[x]
            &&& forall|x: usize|
                x != o ==> (#[trigger] r.timers.contains(x) <==> s.timers.contains(x))
            &&& r.threads == s.threads
            &&& r.links == s.links
        }),
{
    let r = timer_set(s, o, due, dpc);
    lemma_without_timer_absent(s.timers, o);
    let base = if s.objects[o as int].inserted {
        without_timer(s.timers, o)
    } else {
        s.timers
    };
    assert(r.timers == base.push(o));
    assert(r.timers.drop_last() =~= base);
    the_earliest_deadline_is_the_least(r.objects, r.timers);
    assert(r.timers[r.timers.len() - 1] == o);
    assert forall|x: usize| x != o implies (#[trigger] r.timers.contains(x) <==> s.timers.contains(
        x,
    )) by {
        if base.contains(x) {
            let k = choose|k: int| 0 <= k < base.len() && base[k] == x;
            assert(r.timers[k] == x);
        }
        if r.timers.contains(x) {
            let k = choose|k: int| 0 <= k < r.timers.len() && r.timers[k] == x;
            assert(base[k] == x);
        }
    }
}

/// A cancelled timer is not armed and not listed; what it last showed stays, and every
/// other timer stays armed.
pub proof fn a_cancelled_timer_is_disarmed(s: Sched, o: usize)
    requires
        o < s.objects.len(),
    ensures
        ({
            let r = with_earliest(timer_dropped(s, o));
            &&& !r.objects[o as int].inserted
            &&& r.objects[o as int].header == s.objects[o as int].header
            &&& !r.timers.contains(o)
            &&& forall|x: usize|
                x != o ==> (#[trigger] r.timers.contains(x) <==> s.timers.contains(x))
            &&& forall|x: int|
                0 <= x < s.objects.len() && x != o ==> #[trigger] r.objects[x] == s.objects[x]
        }),
{
    lemma_without_timer_absent(s.timers, o);
}

/// Before the earliest deadline nothing expires.
pub proof fn nothing_expires_early(s: Sched)
    requires
        s.earliest > s.tick,
    ensures
        expired(s).0 == s,
        expired(s).1.len() == 0,
{
}

proof fn lemma_no_waiters(s: Sched, o: usize)
    requires
        s.links.len() == 0,
    ensures
        wait_tested(s, o) == (s, 0int),
{
}

proof fn lemma_due_list(s: Sched, i: int, room: int)
    requires
        0 <= i,
        room >= s.timers.len() - i,
        s.timers.no_duplicates(),
    ensures
        forall|x: usize|
            #[trigger] due_timers(s, i, room).contains(x) <==> exists|k: int|
                i <= k < s.timers.len() && #[trigger] s.timers[k] == x
                    && s.objects[x as int].due_tick <= s.tick,
        due_timers(s, i, room).no_duplicates(),
    decreases s.timers.len() - i,
{
    if i < s.timers.len() {
        let t = s.timers[i];
        let hit = s.objects[t as int].due_tick <= s.tick;
        let rest = due_timers(s, i + 1, if hit { room - 1 } else { room });
        lemma_due_list(s, i + 1, if hit { room - 1 } else { room });
        let r = due_timers(s, i, room);
        if hit {
            assert(r == seq![t] + rest);
            assert(!rest.contains(t)) by {
                if rest.contains(t) {
                    let k = choose|k: int|
                        i + 1 <= k < s.timers.len() && #[trigger] s.timers[k] == t
                            && s.objects[t as int].due_tick <= s.tick;
                    assert(s.timers[k] == s.timers[i]);
                }
            }
            assert forall|j: int, k: int| 0 <= j < r.len() && 0 <= k < r.len() && j
                != k implies r[j] != r[k] by {
                if j > 0 && k > 0 {
                    assert(rest[j - 1] != rest[k - 1]);
                } else if j > 0 {
                    assert(rest.contains(rest[j - 1]));
                } else if k > 0 {
                    assert(rest.contains(rest[k - 1]));
                }
            }
        }
        assert forall|x: usize| #[trigger] r.contains(x) <==> exists|k: int|
            i <= k < s.timers.len() && #[trigger] s.timers[k] == x && s.objects[x as int].due_tick
                <= s.tick by {
            if r.contains(x) {
                let j = choose|j: int| 0 <= j < r.len() && r[j] == x;
                if hit && j == 0 {
                    assert(s.timers[i] == x);
                } else {
                    assert(rest.contains(x)) by {
                        if hit {
                            assert(rest[j - 1] == x);
                        }
                    }
                }
            }
            if exists|k: int|
                i <= k < s.timers.len() && #[trigger] s.timers[k] == x
                    && s.objects[x as int].due_tick <= s.tick {
                let k = choose|k: int|
                    i <= k < s.timers.len() && #[trigger] s.timers[k] == x
                        && s.objects[x as int].due_tick <= s.tick;
                if k == i {
                    assert(r[0] == x);
                } else {
                    assert(rest.contains(x));
                    let j = choose|j: int| 0 <= j < rest.len() && rest[j] == x;
                    if hit {
                        assert(r[j + 1] == x);
                    }
                }
            }
        }
    }
}

proof fn lemma_fired(s: Sched, due: Seq<usize>, i: int)
    requires
        s.links.len() == 0,
        0 <= i <= due.len(),
        due.no_duplicates(),
        forall|k: int|
            i <= k < due.len() ==> (#[trigger] due[k]) < s.objects.len()
                && s.objects[due[k] as int].inserted,
    ensures
        ({
            let r = fired(s, due, i).0;
            &&& r.links.len() == 0
            &&& r.threads == s.threads
            &&& r.objects.len() == s.objects.len()
            &&& forall|k: int|
                i <= k < due.len() ==> {
                    let x = r.objects[(#[trigger] due[k]) as int];
                    x.header.signal_state == 1 && !x.inserted && !r.timers.contains(due[k])
                }
            &&& forall|x: usize|
                x < s.objects.len() && (forall|k: int| i <= k < due.len() ==> #[trigger] due[k] != x)
                    ==> #[trigger] r.objects[x as int] == s.objects[x as int]
            &&& forall|x: usize|
                (forall|k: int| i <= k < due.len() ==> #[trigger] due[k] != x) ==> (
                #[trigger] r.timers.contains(x) <==> s.timers.contains(x))
            &&& forall|x: usize| !s.timers.contains(x) ==> !#[trigger] r.timers.contains(x)
        }),
    decreases due.len() - i,
{
    if i < due.len() {
        let o = due[i];
        let m = with_signal(timer_dropped(s, o), o, 1);
        lemma_no_waiters(m, o);
        lemma_without_timer_absent(s.timers, o);
        assert forall|k: int| i + 1 <= k < due.len() implies (#[trigger] due[k]) < m.objects.len()
            && m.objects[due[k] as int].inserted by {
            assert(due[k] != due[i]);
        }
        lemma_fired(m, due, i + 1);
        let r = fired(s, due, i).0;
        assert(r == fired(m, due, i + 1).0);
        assert forall|k: int| i <= k < due.len() implies {
            let x = r.objects[(#[trigger] due[k]) as int];
            x.header.signal_state == 1 && !x.inserted && !r.timers.contains(due[k])
        } by {
            if k == i {
                assert(forall|j: int| i + 1 <= j < due.len() ==> #[trigger] due[j] != o);
                assert(r.objects[o as int] == m.objects[o as int]);
                assert(!m.timers.contains(o));
            }
        }
        assert forall|x: usize|
            x < s.objects.len() && (forall|k: int|
                i <= k < due.len() ==> #[trigger] due[k] != x) implies #[trigger] r.objects[x as int]
            == s.objects[x as int] by {
            assert(due[i] != x);
            assert(r.objects[x as int] == m.objects[x as int]);
        }
        assert forall|x: usize|
            (forall|k: int| i <= k < due.len() ==> #[trigger] due[k] != x) implies (
        #[trigger] r.timers.contains(x) <==> s.timers.contains(x)) by {
            assert(due[i] != x);
            assert(m.timers.contains(x) <==> s.timers.contains(x));
        }
    }
}

/// When the clock has reached their deadlines, timers fire: each armed timer that is due is
/// signaled and no longer armed, each that is not due stays as it was. Up to sixteen fire
/// at once; here nobody waits.
pub proof fn due_timers_fire_and_no_others(s: Sched, o: usize)
    requires
        s.links.len() == 0,
        s.timers.len() <= 16,
        s.timers.no_duplicates(),
        forall|i: int|
            0 <= i < s.timers.len() ==> (#[trigger] s.timers[i]) < s.objects.len()
                && s.objects[s.timers[i] as int].inserted,
        s.earliest == earliest_due(s.objects, s.timers),
        s.tick < u64::MAX,
        s.timers.contains(o),
    ensures
        ({
            let r = expired(s).0;
            &&& s.objects[o as int].due_tick <= s.tick ==> {
                &&& r.objects[o as int].header.signal_state == 1
                &&& !r.objects[o as int].inserted
                &&& !r.timers.contains(o)
            }
            &&& s.objects[o as int].due_tick > s.tick ==> {
                &&& r.objects[o as int] == s.objects[o as int]
                &&& r.timers.contains(o)
            }
        }),
{
    the_earliest_deadline_is_the_least(s.objects, s.timers);
    let j = choose|j: int| 0 <= j < s.timers.len() && s.timers[j] == o;
    assert(s.earliest <= s.objects[s.timers[j] as int].due_tick);
    if s.earliest <= s.tick {
        lemma_due_list(s, 0, 16);
        let due = due_timers(s, 0, 16);
        assert forall|k: int| 0 <= k < due.len() implies (#[trigger] due[k]) < s.objects.len()
            && s.objects[due[k] as int].inserted by {
            assert(due.contains(due[k]));
            let i = choose|i: int|
                0 <= i < s.timers.len() && #[trigger] s.timers[i] == due[k]
                    && s.objects[due[k] as int].due_tick <= s.tick;
            assert(s.timers[i] < s.objects.len());
        }
        lemma_fired(s, due, 0);
        assert(s.timers[j] < s.objects.len());
        if s.objects[o as int].due_tick <= s.tick {
            assert(due.contains(o));
            let k = choose|k: int| 0 <= k < due.len() && due[k] == o;
            assert(due[k] == o);
        } else {
            assert(!due.contains(o));
            assert forall|k: int| 0 <= k < due.len() implies #[trigger] due[k] != o by {
                assert(due.contains(due[k]));
            }
        }
    }
}

/// A clock tick moves the clock by one and takes one tick of the running thread's quantum,
/// unless it is the idle thread; the quantum has ended when none is left. A dispatch is
/// requested then, and when a timer has become due.
pub proof fn a_tick_counts_once(s: Sched)
    requires
        s.current < s.threads.len(),
        s.tick < u64::MAX,
        s.threads[s.current as int].quantum > i32::MIN,
    ensures
        ({
            let (r, request) = ticked(s);
            let me = s.current as int;
            &&& r.tick == s.tick + 1
            &&& s.current == s.idle ==> r.threads == s.threads && r.quantum_end == s.quantum_end
            &&& s.current != s.idle ==> r.threads[me].quantum == s.threads[me].quantum - 1
            &&& s.current != s.idle ==> r.quantum_end == (s.quantum_end || s.threads[me].quantum
                <= 1)
            &&& request == (s.earliest <= s.tick + 1 || (s.current != s.idle
                && s.threads[me].quantum <= 1))
            &&& forall|t: int|
                0 <= t < s.threads.len() && t != me ==> #[trigger] r.threads[t] == s.threads[t]
            &&& r.objects == s.objects
            &&& r.ready == s.ready
            &&& r.current == s.current
        }),
{
}

/// `k` clock ticks.
pub open spec fn ticks(s: Sched, k: nat) -> Sched
    decreases k,
{
    if k == 0 {
        s
    } else {
        ticked(ticks(s, (k - 1) as nat)).0
    }
}

/// A thread with a fresh quantum runs for ten ticks, and its quantum ends with the tenth.
pub proof fn a_quantum_lasts_ten_ticks(s: Sched, k: nat)
    requires
        s.current < s.threads.len(),
        s.current != s.idle,
        s.threads[s.current as int].quantum == 10,
        !s.quantum_end,
        s.tick + k < u64::MAX,
        k <= 10,
    ensures
        ({
            let r = ticks(s, k);
            &&& r.tick == s.tick + k
            &&& r.quantum_end == (k == 10)
            &&& r.threads[s.current as int].quantum == 10 - k
            &&& r.current == s.current
            &&& r.idle == s.idle
            &&& r.threads.len() == s.threads.len()
        }),
    decreases k,
{
    if k > 0 {
        a_quantum_lasts_ten_ticks(s, (k - 1) as nat);
        a_tick_counts_once(ticks(s, (k - 1) as nat));
    }
}

/// The running thread gives way to a higher priority only, unless its quantum has ended;
/// the idle thread gives way to anyone.
pub proof fn only_a_higher_priority_preempts(s: Sched)
    requires
        sched_sound(s),
    ensures
        ({
            let (r, resched) = preempted(s);
            let p = s.threads[s.current as int].priority as int;
            &&& s.current == s.idle ==> (resched <==> exists|q: int|
                0 <= q < 32 && (#[trigger] s.ready[q]).len() > 0)
            &&& s.current != s.idle && !s.quantum_end ==> (resched <==> exists|q: int|
                p < q < 32 && (#[trigger] s.ready[q]).len() > 0)
            &&& s.current != s.idle && s.quantum_end ==> resched
            &&& !r.quantum_end
        }),
{
    lemma_highest(s.ready, PRIORITIES as int);
    assert(thread_sound(s.threads[s.current as int], s.objects.len() as int));
}

/// A preempted thread that is still running goes to the end of the queue of its priority,
/// ready to run on.
pub proof fn a_preempted_thread_waits_its_turn(s: Sched)
    requires
        sched_sound(s),
        s.current != s.idle,
        s.threads[s.current as int].state == ThreadState::Running,
        preempted(s).1,
    ensures
        ({
            let r = preempted(s).0;
            let p = s.threads[s.current as int].priority as int;
            &&& r.ready[p] == s.ready[p].push(s.current)
            &&& forall|q: int| 0 <= q < 32 && q != p ==> #[trigger] r.ready[q] == s.ready[q]
            &&& r.threads[s.current as int].state == ThreadState::Ready
            &&& s.quantum_end ==> r.threads[s.current as int].quantum == 10
            &&& !s.quantum_end ==> r.threads[s.current as int].quantum
                == s.threads[s.current as int].quantum
        }),
{
    assert(thread_sound(s.threads[s.current as int], s.objects.len() as int));
}

/// The processor that changes threads ends up with the stack, the address space and the
/// user GS base of the next one: the kernel's address space for a thread that has none,
/// and nothing is loaded that is loaded already.
pub proof fn a_switch_loads_what_the_next_thread_needs(
    threads: Seq<Kthread>,
    from: usize,
    to: usize,
    sp: Spaces,
)
    ensures
        ({
            let w = switch_plan(threads, from, to, sp);
            let next = threads[to as int];
            let now = match w.load_cr3 {
                Some(c) => c,
                None => sp.loaded,
            };
            &&& w.from == from && w.to == to
            &&& w.kernel_stack == next.stack_top
            &&& now == if next.cr3 == 0 {
                sp.kernel
            } else {
                next.cr3
            }
            &&& w.load_cr3 != Some(sp.loaded)
            &&& (w.gs_base is None) == (next.gs_base == 0)
            &&& w.gs_base matches Some(g) ==> g == next.gs_base
            &&& (w.shim_data is Some) == (threads[from as int].cr3 != next.cr3)
            &&& w.shim_data matches Some((out, inn)) ==> out == threads[from as int].cr3 && inn
                == next.cr3
        }),
{
}

/// The thread that gets the processor is the first of the highest priority that has one,
/// or the idle thread; it runs with a fresh quantum of ten ticks and leaves its queue.
pub proof fn the_best_thread_gets_the_processor(s: Sched, sp: Spaces, p: int)
    requires
        sched_sound(s),
        0 <= p < 32,
        s.ready[p].len() > 0,
        s.ready[p][0] != s.current,
        forall|q: int| p < q < 32 ==> (#[trigger] s.ready[q]).len() == 0,
    ensures
        ({
            let (r, w) = switched(s, s.current, sp);
            let t = s.ready[p][0];
            &&& w is Some
            &&& r.current == t
            &&& r.threads[t as int].state == ThreadState::Running
            &&& r.threads[t as int].quantum == 10
            &&& r.ready[p] == s.ready[p].skip(1)
            &&& r.objects == s.objects
        }),
{
    lemma_highest(s.ready, PRIORITIES as int);
    let h = crate::ke::ready::highest_ready(s.ready, PRIORITIES as int);
    assert(s.ready[p].len() > 0);
    assert(h == Some(p));
    assert(s.ready[p][0] < s.threads.len());
}

/// With nobody ready, the idle thread gets the processor.
pub proof fn the_idle_thread_runs_when_nobody_else_can(s: Sched, sp: Spaces)
    requires
        sched_sound(s),
        forall|q: int| 0 <= q < 32 ==> (#[trigger] s.ready[q]).len() == 0,
        s.current != s.idle,
    ensures
        switched(s, s.current, sp).0.current == s.idle,
        switched(s, s.current, sp).0.ready == s.ready,
{
    lemma_highest(s.ready, PRIORITIES as int);
}

/// A thread that ends is terminated for good and its object stays signaled, so that whoever
/// joins it later does not wait. Here nobody waits yet.
pub proof fn an_ended_thread_is_signaled(s: Sched, sp: Spaces)
    requires
        sched_sound(s),
        s.links.len() == 0,
        s.current != s.idle,
        forall|p: int, i: int|
            0 <= p < 32 && 0 <= i < s.ready[p].len() ==> #[trigger] s.ready[p][i] != s.current,
    ensures
        ({
            let (r, w) = terminated(s, sp);
            let me = s.current as int;
            &&& r.objects[s.threads[me].object as int].header.signal_state == 1
            &&& r.threads[me].state == ThreadState::Terminated
            &&& r.current != s.current
            &&& w is Some
        }),
{
    let me = s.current;
    let o = s.threads[me as int].object;
    assert(thread_sound(s.threads[me as int], s.objects.len() as int));
    lemma_no_waiters(with_signal(s, o, 1), o);
    lemma_highest(s.ready, PRIORITIES as int);
    let h = crate::ke::ready::highest_ready(s.ready, PRIORITIES as int);
    match h {
        Some(p) => {
            assert(s.ready[p][0] != me);
            assert(s.ready[p][0] < s.threads.len());
        },
        None => {},
    }
}

} // verus!
