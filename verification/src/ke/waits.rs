//! What a wait gives and takes.
//!
//! These laws tell, object type by object type, what a thread gets from a wait and what
//! is left for the next one.
use crate::ke::dispatcher::{DispatcherObject, DispatcherObjectType};
use crate::ke::ready::{choice_is_highest_and_oldest, next_ready, PRIORITIES};
use crate::ke::scheduler::{
    all_signaled, blocked, consume_blocks, consume_one, evaluate, first_satisfied, first_signaled,
    lemma_blocks_for, lemma_without_thread, lemma_woken, links_for, prepared, sched_sound, signaled_for,
    thread_sound, wait_tested, waited, wake_waiters, with_signal, without_thread, without_timer, woken,
    Satisfy, Sched, Spaces, WaitLink, WaitOutcome,
};
use crate::ke::signal::mutant_released;
use crate::ke::thread::{Kthread, ThreadState, WaitType, THREAD_WAIT_OBJECTS};
use crate::rtl::NtStatus;
use vstd::prelude::*;

verus! {

/// Nothing but the current thread and object `o` differs.
pub open spec fn only_object_changed(a: Sched, b: Sched, o: usize) -> bool {
    &&& b.objects.len() == a.objects.len()
    &&& forall|p: int|
        0 <= p < a.objects.len() && p != o ==> #[trigger] b.objects[p] == a.objects[p]
    &&& b.threads.len() == a.threads.len()
    &&& forall|t: int|
        0 <= t < a.threads.len() && t != a.current ==> #[trigger] b.threads[t] == a.threads[t]
    &&& b.ready == a.ready
    &&& b.links == a.links
    &&& b.timers == a.timers
    &&& b.tick == a.tick
    &&& b.earliest == a.earliest
    &&& b.current == a.current
    &&& b.idle == a.idle
    &&& b.quantum_end == a.quantum_end
}

/// Object `o` has another signal state and is otherwise the same.
pub open spec fn only_signal_changed(a: Sched, b: Sched, o: usize) -> bool {
    let x = a.objects[o as int];
    let y = b.objects[o as int];
    &&& y.header.object_type == x.header.object_type
    &&& y.limit == x.limit
    &&& y.owner == x.owner
    &&& y.due_tick == x.due_tick
    &&& y.inserted == x.inserted
    &&& y.dpc == x.dpc
}

proof fn lemma_single(s: Sched, o: usize, wait_type: WaitType)
    requires
        sched_sound(s),
        o < s.objects.len(),
    ensures
        ({
            let p = prepared(s, seq![o], wait_type);
            let th = p.threads[s.current as int];
            &&& th.wait_blocks.at(0).object == o
            &&& th.wait_blocks.at(0).wait_key == 0
            &&& th.wait_count == 1
            &&& evaluate(p, s.current) == if signaled_for(
                s.objects,
                s.current,
                o,
            ) {
                match wait_type {
                    WaitType::Any => Satisfy::Any(0),
                    WaitType::All => Satisfy::All,
                }
            } else {
                Satisfy::NotYet
            }
        }),
{
    reveal_with_fuel(first_signaled, 2);
    reveal_with_fuel(all_signaled, 2);
    let th = s.threads[s.current as int];
    lemma_blocks_for(th.wait_blocks, seq![o], 1, false);
    let b = crate::ke::scheduler::blocks_for(th.wait_blocks, seq![o], 1, false);
    assert(b.at(0).object == o);
}

proof fn lemma_single_outcome(
    s: Sched,
    o: usize,
    wait_type: WaitType,
    timeout: Option<u64>,
    sp: Spaces,
)
    requires
        sched_sound(s),
        o < s.objects.len(),
        signaled_for(s.objects, s.current, o),
    ensures
        ({
            let (s1, r) = waited(s, seq![o], wait_type, timeout, sp);
            &&& r == WaitOutcome::Done(NtStatus(0))
            &&& only_object_changed(s, s1, o)
            &&& s1.objects == consume_one(s.objects, o, s.current)
        }),
{
    reveal_with_fuel(consume_blocks, 2);
    lemma_single(s, o, wait_type);
}

/// A satisfied wait on a semaphore succeeds, lowers the count by exactly one, and changes
/// no other object.
pub proof fn a_wait_takes_one_unit_of_a_semaphore(
    s: Sched,
    o: usize,
    wait_type: WaitType,
    timeout: Option<u64>,
    sp: Spaces,
)
    requires
        sched_sound(s),
        o < s.objects.len(),
        s.objects[o as int].header.object_type == DispatcherObjectType::Semaphore,
        s.objects[o as int].header.signal_state > 0,
    ensures
        ({
            let (s1, r) = waited(s, seq![o], wait_type, timeout, sp);
            &&& r == WaitOutcome::Done(NtStatus(0))
            &&& s1.objects[o as int].header.signal_state
                == s.objects[o as int].header.signal_state - 1
            &&& only_signal_changed(s, s1, o)
            &&& only_object_changed(s, s1, o)
        }),
{
    lemma_single_outcome(s, o, wait_type, timeout, sp);
}

/// A satisfied wait on an auto-reset event succeeds and clears the event, so that the
/// next one finds it clear.
pub proof fn a_wait_clears_an_auto_reset_event(
    s: Sched,
    o: usize,
    wait_type: WaitType,
    timeout: Option<u64>,
    sp: Spaces,
)
    requires
        sched_sound(s),
        o < s.objects.len(),
        s.objects[o as int].header.object_type == DispatcherObjectType::SynchronizationEvent,
        s.objects[o as int].header.signal_state > 0,
    ensures
        ({
            let (s1, r) = waited(s, seq![o], wait_type, timeout, sp);
            &&& r == WaitOutcome::Done(NtStatus(0))
            &&& s1.objects[o as int].header.signal_state == 0
            &&& only_signal_changed(s, s1, o)
            &&& only_object_changed(s, s1, o)
        }),
{
    lemma_single_outcome(s, o, wait_type, timeout, sp);
}

/// A satisfied wait on a notification event, an ended thread or an expired timer succeeds
/// and leaves it signaled for everyone else.
pub proof fn a_wait_leaves_a_latched_object_signaled(
    s: Sched,
    o: usize,
    wait_type: WaitType,
    timeout: Option<u64>,
    sp: Spaces,
)
    requires
        sched_sound(s),
        o < s.objects.len(),
        ({
            let t = s.objects[o as int].header.object_type;
            ||| t == DispatcherObjectType::NotificationEvent
            ||| t == DispatcherObjectType::Thread
            ||| t == DispatcherObjectType::Timer
        }),
        s.objects[o as int].header.signal_state > 0,
    ensures
        ({
            let (s1, r) = waited(s, seq![o], wait_type, timeout, sp);
            &&& r == WaitOutcome::Done(NtStatus(0))
            &&& s1.objects == s.objects
            &&& only_object_changed(s, s1, o)
        }),
{
    lemma_single_outcome(s, o, wait_type, timeout, sp);
    let s1 = waited(s, seq![o], wait_type, timeout, sp).0;
    assert(s1.objects =~= s.objects);
}

/// A satisfied wait on a mutant, free or already the thread's own, makes the thread its
/// owner and lowers the count by exactly one.
pub proof fn a_wait_acquires_a_mutant(
    s: Sched,
    o: usize,
    wait_type: WaitType,
    timeout: Option<u64>,
    sp: Spaces,
)
    requires
        sched_sound(s),
        o < s.objects.len(),
        s.objects[o as int].header.object_type == DispatcherObjectType::Mutant,
        s.objects[o as int].header.signal_state > 0 || s.objects[o as int].owner == Some(s.current),
        s.objects[o as int].header.signal_state > i32::MIN,
    ensures
        ({
            let (s1, r) = waited(s, seq![o], wait_type, timeout, sp);
            &&& r == WaitOutcome::Done(NtStatus(0))
            &&& s1.objects[o as int].owner == Some(s.current)
            &&& s1.objects[o as int].header.signal_state
                == s.objects[o as int].header.signal_state - 1
            &&& s1.objects[o as int].header.object_type == DispatcherObjectType::Mutant
            &&& only_object_changed(s, s1, o)
        }),
{
    lemma_single_outcome(s, o, wait_type, timeout, sp);
}

/// Asking without waiting for what is not signaled times out and takes nothing.
pub proof fn a_poll_that_fails_takes_nothing(s: Sched, o: usize, wait_type: WaitType, sp: Spaces)
    requires
        sched_sound(s),
        o < s.objects.len(),
        s.objects[o as int].header.signal_state <= 0,
        s.objects[o as int].header.object_type == DispatcherObjectType::Mutant
            ==> s.objects[o as int].owner != Some(s.current),
    ensures
        ({
            let (s1, r) = waited(s, seq![o], wait_type, Some(0), sp);
            &&& r == WaitOutcome::Done(NtStatus(0x102))
            &&& s1.objects == s.objects
            &&& only_object_changed(s, s1, o)
        }),
{
    lemma_single(s, o, wait_type);
}

/// The state after `k` polls of object `o` by the running thread, and whether all of them
/// succeeded.
pub open spec fn polled(s: Sched, o: usize, k: nat, sp: Spaces) -> (Sched, bool)
    decreases k,
{
    if k == 0 {
        (s, true)
    } else {
        let (s1, ok) = polled(s, o, (k - 1) as nat, sp);
        let (s2, r) = waited(s1, seq![o], WaitType::Any, Some(0), sp);
        (s2, ok && r == WaitOutcome::Done(NtStatus(0)))
    }
}

proof fn lemma_sound_after(s: Sched, o: usize, sp: Spaces)
    requires
        sched_sound(s),
        o < s.objects.len(),
        signaled_for(s.objects, s.current, o),
    ensures
        sched_sound(waited(s, seq![o], WaitType::Any, Some(0), sp).0),
{
    lemma_single_outcome(s, o, WaitType::Any, Some(0), sp);
    let (s1, r) = waited(s, seq![o], WaitType::Any, Some(0), sp);
    lemma_blocks_for(s.threads[s.current as int].wait_blocks, seq![o], 1, false);
    assert forall|t: int| 0 <= t < s1.threads.len() implies #[trigger] thread_sound(
        s1.threads[t],
        s1.objects.len() as int,
    ) by {
        assert(thread_sound(s.threads[t], s.objects.len() as int));
    }
}

/// A semaphore of count `n` satisfies `n` successive waits without a release, and after
/// `k` of them its count is `n - k`.
pub proof fn a_semaphore_satisfies_as_many_waits_as_it_counts(
    s: Sched,
    o: usize,
    k: nat,
    sp: Spaces,
)
    requires
        sched_sound(s),
        o < s.objects.len(),
        s.objects[o as int].header.object_type == DispatcherObjectType::Semaphore,
        k <= s.objects[o as int].header.signal_state,
    ensures
        ({
            let (s1, ok) = polled(s, o, k, sp);
            &&& ok
            &&& s1.objects[o as int].header.signal_state
                == s.objects[o as int].header.signal_state - k
            &&& s1.objects[o as int].header.object_type == DispatcherObjectType::Semaphore
            &&& sched_sound(s1)
            &&& o < s1.objects.len()
            &&& s1.current == s.current
        }),
    decreases k,
{
    if k > 0 {
        a_semaphore_satisfies_as_many_waits_as_it_counts(s, o, (k - 1) as nat, sp);
        let s1 = polled(s, o, (k - 1) as nat, sp).0;
        a_wait_takes_one_unit_of_a_semaphore(s1, o, WaitType::Any, Some(0), sp);
        lemma_sound_after(s1, o, sp);
    }
}

/// The wait after the last unit of a semaphore was taken times out.
pub proof fn an_exhausted_semaphore_satisfies_no_wait(s: Sched, o: usize, sp: Spaces)
    requires
        sched_sound(s),
        o < s.objects.len(),
        s.objects[o as int].header.object_type == DispatcherObjectType::Semaphore,
        s.objects[o as int].header.signal_state >= 0,
    ensures
        ({
            let n = s.objects[o as int].header.signal_state as nat;
            let s1 = polled(s, o, n, sp).0;
            waited(s1, seq![o], WaitType::Any, Some(0), sp).1 == WaitOutcome::Done(NtStatus(0x102))
        }),
{
    let n = s.objects[o as int].header.signal_state as nat;
    a_semaphore_satisfies_as_many_waits_as_it_counts(s, o, n, sp);
    a_poll_that_fails_takes_nothing(polled(s, o, n, sp).0, o, WaitType::Any, sp);
}

// ---------------------------------------------------------------------------
// Waking
// ---------------------------------------------------------------------------
/// The threads on the wait list of `o`, oldest first.
pub open spec fn waiters(links: Seq<WaitLink>, o: usize) -> Seq<usize>
    decreases links.len(),
{
    if links.len() == 0 {
        Seq::empty()
    } else {
        let rest = waiters(links.drop_last(), o);
        if links.last().object == o {
            rest.push(links.last().thread)
        } else {
            rest
        }
    }
}

/// Whoever waits for `o` waits for nothing else and without a timeout, and stands once on
/// its list.
pub open spec fn plain_waiters(s: Sched, o: usize) -> bool {
    &&& forall|i: int|
        0 <= i < waiters(s.links, o).len() ==> {
            let th = s.threads[(#[trigger] waiters(s.links, o)[i]) as int];
            th.wait_count == 1 && th.wait_blocks.at(0).object == o && th.wait_blocks.at(0).wait_key
                == 0 && !th.wait_timed
        }
    &&& waiters(s.links, o).no_duplicates()
}

spec fn without(w: Seq<usize>, t: usize) -> Seq<usize>
    decreases w.len(),
{
    if w.len() == 0 {
        w
    } else if w.last() == t {
        without(w.drop_last(), t)
    } else {
        without(w.drop_last(), t).push(w.last())
    }
}

proof fn lemma_waiters_without(links: Seq<WaitLink>, o: usize, t: usize)
    ensures
        waiters(without_thread(links, t), o) == without(waiters(links, o), t),
    decreases links.len(),
{
    if links.len() > 0 {
        let init = links.drop_last();
        lemma_waiters_without(init, o, t);
        let r = without_thread(init, t);
        let w = waiters(init, o);
        if links.last().thread != t {
            assert(r.push(links.last()).drop_last() =~= r);
        }
        if links.last().object == o {
            assert(w.push(links.last().thread).drop_last() =~= w);
        }
    }
}

proof fn lemma_without_absent(w: Seq<usize>, t: usize)
    requires
        !w.contains(t),
    ensures
        without(w, t) == w,
    decreases w.len(),
{
    if w.len() > 0 {
        let i = w.len() - 1;
        assert(w[i] != t);
        assert forall|k: int| 0 <= k < w.drop_last().len() implies w.drop_last()[k] != t by {
            assert(w[k] != t);
        }
        lemma_without_absent(w.drop_last(), t);
        assert(w.drop_last().push(w.last()) =~= w);
    }
}

proof fn lemma_without_first(w: Seq<usize>)
    requires
        w.len() > 0,
        w.no_duplicates(),
    ensures
        without(w, w[0]) == w.skip(1),
    decreases w.len(),
{
    if w.len() == 1 {
        assert(without(w.drop_last(), w[0]) =~= w.drop_last());
        assert(w.drop_last() =~= w.skip(1));
    } else {
        lemma_without_first(w.drop_last());
        assert(w.drop_last()[0] == w[0]);
        assert(w.last() != w[0]);
        assert(w.drop_last().skip(1).push(w.last()) =~= w.skip(1));
    }
}

proof fn lemma_waiter_is_linked(links: Seq<WaitLink>, o: usize, i: int)
    requires
        0 <= i < waiters(links, o).len(),
    ensures
        exists|k: int|
            0 <= k < links.len() && #[trigger] links[k] == (WaitLink {
                object: o,
                thread: waiters(links, o)[i],
            }),
    decreases links.len(),
{
    let init = links.drop_last();
    if links.last().object == o && i == waiters(links, o).len() - 1 {
        assert(links[links.len() - 1] == (WaitLink { object: o, thread: waiters(links, o)[i] }));
    } else {
        lemma_waiter_is_linked(init, o, i);
        let k = choose|k: int|
            0 <= k < init.len() && #[trigger] init[k] == (WaitLink {
                object: o,
                thread: waiters(init, o)[i],
            });
        assert(links[k] == (WaitLink { object: o, thread: waiters(links, o)[i] }));
    }
}

proof fn lemma_waiters_prefix(links: Seq<WaitLink>, o: usize, i: int)
    requires
        0 <= i <= links.len(),
    ensures
        waiters(links.take(i), o).len() <= waiters(links, o).len(),
        waiters(links, o).take(waiters(links.take(i), o).len() as int) == waiters(links.take(i), o),
    decreases links.len(),
{
    if i == links.len() {
        assert(links.take(i) =~= links);
        assert(waiters(links, o).take(waiters(links, o).len() as int) =~= waiters(links, o));
    } else {
        lemma_waiters_prefix(links.drop_last(), o, i);
        assert(links.drop_last().take(i) =~= links.take(i));
        let w = waiters(links.drop_last(), o);
        let k = waiters(links.take(i), o).len() as int;
        assert(waiters(links, o).take(k) =~= w.take(k));
    }
}

/// Whom the search for a satisfied waiter finds, from link `i` on, when those before it
/// are of other objects.
proof fn lemma_first_is_oldest(s: Sched, o: usize, i: int)
    requires
        0 <= i <= s.links.len(),
        waiters(s.links.take(i), o).len() == 0,
        forall|k: int|
            0 <= k < waiters(s.links, o).len() ==> evaluate(
                s,
                #[trigger] waiters(s.links, o)[k],
            ) != Satisfy::NotYet,
    ensures
        first_satisfied(s, o, i) == if waiters(s.links, o).len() == 0 {
            None
        } else {
            Some(waiters(s.links, o)[0])
        },
    decreases s.links.len() - i,
{
    let w = waiters(s.links, o);
    if i == s.links.len() {
        assert(s.links.take(i) =~= s.links);
    } else {
        let next = s.links.take(i + 1);
        assert(next.drop_last() =~= s.links.take(i));
        assert(next.last() == s.links[i]);
        lemma_waiters_prefix(s.links, o, i + 1);
        if s.links[i].object == o {
            assert(waiters(next, o) =~= seq![s.links[i].thread]);
            assert(w.take(1)[0] == w[0]);
            assert(w[0] == s.links[i].thread);
        } else {
            lemma_first_is_oldest(s, o, i + 1);
        }
    }
}

/// Nobody is found when no waiter is satisfied.
proof fn lemma_first_none(s: Sched, o: usize, i: int)
    requires
        0 <= i <= s.links.len(),
        forall|k: int|
            0 <= k < waiters(s.links, o).len() ==> evaluate(
                s,
                #[trigger] waiters(s.links, o)[k],
            ) == Satisfy::NotYet,
    ensures
        first_satisfied(s, o, i) is None,
    decreases s.links.len() - i,
{
    if i < s.links.len() {
        lemma_first_none(s, o, i + 1);
        if s.links[i].object == o {
            let next = s.links.take(i + 1);
            assert(next.drop_last() =~= s.links.take(i));
            assert(next.last() == s.links[i]);
            lemma_waiters_prefix(s.links, o, i + 1);
            let k = waiters(next, o).len() - 1;
            assert(waiters(next, o)[k] == s.links[i].thread);
            assert(waiters(s.links, o).take(k + 1)[k] == waiters(s.links, o)[k]);
            assert(waiters(s.links, o)[k] == s.links[i].thread);
        }
    }
}

proof fn lemma_plain_evaluate(s: Sched, o: usize, t: usize)
    requires
        ({
            let th = s.threads[t as int];
            th.wait_count == 1 && th.wait_blocks.at(0).object == o && !th.wait_timed
        }),
    ensures
        evaluate(s, t) == if signaled_for(s.objects, t, o) {
            match s.threads[t as int].wait_type {
                WaitType::Any => Satisfy::Any(0),
                WaitType::All => Satisfy::All,
            }
        } else {
            Satisfy::NotYet
        },
{
    reveal_with_fuel(first_signaled, 2);
    reveal_with_fuel(all_signaled, 2);
}

/// A thread that was woken with success: ready, and last in the queue of its priority.
pub open spec fn woke_up(a: Sched, b: Sched, t: usize) -> bool {
    &&& b.threads[t as int].state == ThreadState::Ready
    &&& b.threads[t as int].wait_status == NtStatus(0)
    &&& b.threads[t as int].priority == a.threads[t as int].priority
}

/// One waiter is woken: the oldest.
proof fn lemma_wake_oldest(s: Sched, o: usize)
    requires
        sched_sound(s),
        o < s.objects.len(),
        plain_waiters(s, o),
        s.objects[o as int].header.signal_state > 0,
        waiters(s.links, o).len() > 0,
    ensures
        ({
            let w = waiters(s.links, o);
            let t = w[0];
            let s1 = woken(s, t);
            &&& first_satisfied(s, o, 0) == Some(t)
            &&& t < s.threads.len()
            &&& sched_sound(s1)
            &&& plain_waiters(s1, o)
            &&& waiters(s1.links, o) == w.skip(1)
            &&& s1.objects == consume_one(s.objects, o, t)
            &&& woke_up(s, s1, t)
            &&& s1.threads.len() == s.threads.len()
            &&& forall|u: int|
                0 <= u < s.threads.len() && u != t ==> #[trigger] s1.threads[u] == s.threads[u]
            &&& s1.links.len() < s.links.len()
        }),
{
    reveal_with_fuel(consume_blocks, 2);
    let w = waiters(s.links, o);
    let t = w[0];
    assert forall|k: int| 0 <= k < w.len() implies evaluate(s, #[trigger] w[k])
        != Satisfy::NotYet by {
        lemma_plain_evaluate(s, o, w[k]);
    }
    assert(s.links.take(0) =~= Seq::<WaitLink>::empty());
    lemma_first_is_oldest(s, o, 0);
    lemma_waiter_is_linked(s.links, o, 0);
    let k = choose|k: int|
        0 <= k < s.links.len() && #[trigger] s.links[k] == (WaitLink { object: o, thread: t });
    assert(s.links[k].thread < s.threads.len());
    lemma_plain_evaluate(s, o, t);
    lemma_woken(s, t);
    let s1 = woken(s, t);
    lemma_waiters_without(s.links, o, t);
    lemma_without_first(w);
    lemma_without_thread(s.links, t);
    assert(waiters(s1.links, o) == w.skip(1));
    assert forall|i: int| 0 <= i < waiters(s1.links, o).len() implies {
        let th = s1.threads[(#[trigger] waiters(s1.links, o)[i]) as int];
        th.wait_count == 1 && th.wait_blocks.at(0).object == o && th.wait_blocks.at(0).wait_key == 0
            && !th.wait_timed
    } by {
        assert(w.skip(1)[i] == w[i + 1]);
        assert(w[i + 1] != w[0]);
        lemma_waiter_is_linked(s.links, o, i + 1);
        let j = choose|j: int|
            0 <= j < s.links.len() && #[trigger] s.links[j] == (WaitLink {
                object: o,
                thread: w[i + 1],
            });
        assert(s.links[j].thread < s.threads.len());
    }
    lemma_shorter(s.links, t, k);
}

proof fn lemma_shorter(links: Seq<WaitLink>, t: usize, k: int)
    requires
        0 <= k < links.len(),
        links[k].thread == t,
    ensures
        without_thread(links, t).len() < links.len(),
    decreases links.len(),
{
    lemma_without_thread(links.drop_last(), t);
    if k < links.len() - 1 {
        lemma_shorter(links.drop_last(), t, k);
    }
}

/// The first `k` of some threads have been woken with success, and no other thread has
/// changed.
pub open spec fn woke_first(a: Sched, b: Sched, w: Seq<usize>, k: int) -> bool {
    &&& b.threads.len() == a.threads.len()
    &&& forall|i: int| 0 <= i < k ==> woke_up(a, b, #[trigger] w[i])
    &&& forall|u: usize|
        u < a.threads.len() && !w.take(k).contains(u) ==> #[trigger] b.threads[u as int]
            == a.threads[u as int]
}

/// One object `o` may differ, the others do not.
pub open spec fn other_objects_kept(a: Sched, b: Sched, o: usize) -> bool {
    &&& b.objects.len() == a.objects.len()
    &&& forall|p: int|
        0 <= p < a.objects.len() && p != o ==> #[trigger] b.objects[p] == a.objects[p]
}

proof fn lemma_woke_next(a: Sched, m: Sched, b: Sched, w: Seq<usize>, k: int)
    requires
        w.len() > 0,
        w.no_duplicates(),
        0 <= k < w.len(),
        w[0] < a.threads.len(),
        m.threads.len() == a.threads.len(),
        woke_up(a, m, w[0]),
        forall|u: int|
            0 <= u < a.threads.len() && u != w[0] ==> #[trigger] m.threads[u] == a.threads[u],
        forall|i: int| 0 <= i < w.len() ==> #[trigger] w[i] < a.threads.len(),
        woke_first(m, b, w.skip(1), k),
    ensures
        woke_first(a, b, w, k + 1),
{
    let rest = w.skip(1);
    assert forall|i: int| 0 <= i < k + 1 implies woke_up(a, b, #[trigger] w[i]) by {
        if i == 0 {
            assert(!rest.take(k).contains(w[0])) by {
                assert forall|j: int| 0 <= j < k implies rest.take(k)[j] != w[0] by {
                    assert(rest.take(k)[j] == w[j + 1]);
                }
            }
        } else {
            assert(rest[i - 1] == w[i]);
            assert(woke_up(m, b, rest[i - 1]));
            assert(m.threads[w[i] as int] == a.threads[w[i] as int]);
        }
    }
    assert forall|u: usize| u < a.threads.len() && !w.take(k + 1).contains(u) implies
        #[trigger] b.threads[u as int] == a.threads[u as int] by {
        assert(w.take(k + 1)[0] == w[0]);
        assert(u != w[0]);
        assert(!rest.take(k).contains(u)) by {
            assert forall|j: int| 0 <= j < k implies rest.take(k)[j] != u by {
                assert(w.take(k + 1)[j + 1] == rest.take(k)[j]);
            }
        }
    }
}

proof fn lemma_waiters_exist(s: Sched, o: usize)
    requires
        sched_sound(s),
    ensures
        forall|i: int|
            0 <= i < waiters(s.links, o).len() ==> #[trigger] waiters(s.links, o)[i]
                < s.threads.len(),
{
    assert forall|i: int| 0 <= i < waiters(s.links, o).len() implies #[trigger] waiters(
        s.links,
        o,
    )[i] < s.threads.len() by {
        lemma_waiter_is_linked(s.links, o, i);
        let j = choose|j: int|
            0 <= j < s.links.len() && #[trigger] s.links[j] == (WaitLink {
                object: o,
                thread: waiters(s.links, o)[i],
            });
        assert(s.links[j].thread < s.threads.len());
    }
}

/// A semaphore whose count has become `v` wakes as many waiters as it has units, the
/// oldest first; each takes one unit, and the rest stay on the list.
pub proof fn a_semaphore_wakes_one_waiter_per_unit(s: Sched, o: usize, n: int)
    requires
        sched_sound(s),
        o < s.objects.len(),
        s.objects[o as int].header.object_type == DispatcherObjectType::Semaphore,
        s.objects[o as int].header.signal_state >= 0,
        plain_waiters(s, o),
        n >= waiters(s.links, o).len(),
    ensures
        ({
            let v = s.objects[o as int].header.signal_state as int;
            let w = waiters(s.links, o);
            let k = if v <= w.len() {
                v
            } else {
                w.len() as int
            };
            let (s1, woke) = wake_waiters(s, o, n);
            &&& woke == k
            &&& s1.objects[o as int].header.signal_state == v - k
            &&& s1.objects[o as int].header.object_type == DispatcherObjectType::Semaphore
            &&& other_objects_kept(s, s1, o)
            &&& waiters(s1.links, o) == w.skip(k)
            &&& woke_first(s, s1, w, k)
        }),
    decreases n,
{
    let v = s.objects[o as int].header.signal_state as int;
    let w = waiters(s.links, o);
    lemma_waiters_exist(s, o);
    if v == 0 {
        assert forall|k: int| 0 <= k < w.len() implies evaluate(s, #[trigger] w[k])
            == Satisfy::NotYet by {
            lemma_plain_evaluate(s, o, w[k]);
        }
        lemma_first_none(s, o, 0);
        assert(w.skip(0) =~= w);
    } else if w.len() == 0 {
        lemma_first_none(s, o, 0);
        assert(w.skip(0) =~= w);
    } else {
        lemma_wake_oldest(s, o);
        let m = woken(s, w[0]);
        a_semaphore_wakes_one_waiter_per_unit(m, o, n - 1);
        let (s1, woke) = wake_waiters(s, o, n);
        assert(w.skip(1).skip(woke - 1) =~= w.skip(woke));
        lemma_woke_next(s, m, s1, w, woke - 1);
        assert forall|p: int| 0 <= p < s.objects.len() && p != o implies #[trigger] s1.objects[p]
            == s.objects[p] by {
            assert(m.objects[p] == s.objects[p]);
        }
    }
}

/// Releasing `k` units of a semaphore with `k` waiters or more wakes the `k` oldest and
/// leaves the count where it was; with fewer waiters, what is left is counted.
pub proof fn a_release_of_k_wakes_k(s: Sched, o: usize, k: int)
    requires
        sched_sound(s),
        o < s.objects.len(),
        s.objects[o as int].header.object_type == DispatcherObjectType::Semaphore,
        s.objects[o as int].header.signal_state == 0,
        plain_waiters(s, o),
        0 < k <= i32::MAX,
    ensures
        ({
            let w = waiters(s.links, o);
            let (s1, woke) = wait_tested(with_signal(s, o, k as i32), o);
            &&& k <= w.len() ==> woke == k && s1.objects[o as int].header.signal_state == 0
            &&& k > w.len() ==> woke == w.len() && s1.objects[o as int].header.signal_state == k
                - w.len()
            &&& waiters(s1.links, o) == w.skip(woke)
            &&& woke_first(s, s1, w, woke)
        }),
{
    let a = with_signal(s, o, k as i32);
    lemma_same_threads(s, a);
    lemma_waiters_fit(s.links, o);
    a_semaphore_wakes_one_waiter_per_unit(a, o, s.links.len() as int);
}

proof fn lemma_waiters_fit(links: Seq<WaitLink>, o: usize)
    ensures
        waiters(links, o).len() <= links.len(),
    decreases links.len(),
{
    if links.len() > 0 {
        lemma_waiters_fit(links.drop_last(), o);
    }
}

proof fn lemma_same_threads(s: Sched, a: Sched)
    requires
        sched_sound(s),
        a == (Sched { objects: a.objects, ..s }),
        a.objects.len() == s.objects.len(),
    ensures
        sched_sound(a),
{
    assert forall|t: int| 0 <= t < a.threads.len() implies #[trigger] thread_sound(
        a.threads[t],
        a.objects.len() as int,
    ) by {
        assert(thread_sound(s.threads[t], s.objects.len() as int));
    }
}

/// Signaling a notification event, an ended thread or a timer wakes every waiter and
/// leaves it signaled.
pub proof fn a_latched_object_wakes_every_waiter(s: Sched, o: usize, n: int)
    requires
        sched_sound(s),
        o < s.objects.len(),
        ({
            let t = s.objects[o as int].header.object_type;
            ||| t == DispatcherObjectType::NotificationEvent
            ||| t == DispatcherObjectType::Thread
            ||| t == DispatcherObjectType::Timer
        }),
        s.objects[o as int].header.signal_state > 0,
        plain_waiters(s, o),
        n >= waiters(s.links, o).len(),
    ensures
        ({
            let w = waiters(s.links, o);
            let (s1, woke) = wake_waiters(s, o, n);
            &&& woke == w.len()
            &&& s1.objects == s.objects
            &&& waiters(s1.links, o).len() == 0
            &&& woke_first(s, s1, w, woke)
        }),
    decreases n,
{
    let w = waiters(s.links, o);
    lemma_waiters_exist(s, o);
    if w.len() == 0 {
        lemma_first_none(s, o, 0);
    } else {
        lemma_wake_oldest(s, o);
        let m = woken(s, w[0]);
        assert(m.objects =~= s.objects);
        a_latched_object_wakes_every_waiter(m, o, n - 1);
        let (s1, woke) = wake_waiters(s, o, n);
        lemma_woke_next(s, m, s1, w, woke - 1);
    }
}

/// Signaling an auto-reset event wakes the oldest waiter, which takes the signal; without
/// a waiter the event stays signaled.
pub proof fn an_auto_reset_event_wakes_the_oldest(s: Sched, o: usize, n: int)
    requires
        sched_sound(s),
        o < s.objects.len(),
        s.objects[o as int].header.object_type == DispatcherObjectType::SynchronizationEvent,
        s.objects[o as int].header.signal_state > 0,
        plain_waiters(s, o),
        n >= waiters(s.links, o).len(),
    ensures
        ({
            let w = waiters(s.links, o);
            let (s1, woke) = wake_waiters(s, o, n);
            if w.len() == 0 {
                woke == 0 && s1 == s
            } else {
                &&& woke == 1
                &&& s1.objects[o as int].header.signal_state == 0
                &&& other_objects_kept(s, s1, o)
                &&& waiters(s1.links, o) == w.skip(1)
                &&& woke_first(s, s1, w, 1)
            }
        }),
{
    let w = waiters(s.links, o);
    lemma_waiters_exist(s, o);
    if w.len() == 0 {
        lemma_first_none(s, o, 0);
    } else {
        lemma_wake_oldest(s, o);
        let m = woken(s, w[0]);
        assert forall|k: int| 0 <= k < waiters(m.links, o).len() implies evaluate(
            m,
            #[trigger] waiters(m.links, o)[k],
        ) == Satisfy::NotYet by {
            lemma_plain_evaluate(m, o, waiters(m.links, o)[k]);
        }
        lemma_first_none(m, o, 0);
        assert(wake_waiters(m, o, n - 1) == (m, 0int));
        lemma_woke_next(s, m, m, w, 0);
    }
}

/// A mutant that has become free goes to the oldest waiter, and to it alone: it is the
/// owner, and the count is 0. Without a waiter the mutant stays free.
pub proof fn a_free_mutant_goes_to_the_oldest(s: Sched, o: usize, n: int)
    requires
        sched_sound(s),
        o < s.objects.len(),
        s.objects[o as int].header.object_type == DispatcherObjectType::Mutant,
        s.objects[o as int].header.signal_state == 1,
        s.objects[o as int].owner is None,
        plain_waiters(s, o),
        n >= waiters(s.links, o).len(),
    ensures
        ({
            let w = waiters(s.links, o);
            let (s1, woke) = wake_waiters(s, o, n);
            if w.len() == 0 {
                woke == 0 && s1 == s
            } else {
                &&& woke == 1
                &&& s1.objects[o as int].header.signal_state == 0
                &&& s1.objects[o as int].owner == Some(w[0])
                &&& other_objects_kept(s, s1, o)
                &&& waiters(s1.links, o) == w.skip(1)
                &&& woke_first(s, s1, w, 1)
            }
        }),
{
    let w = waiters(s.links, o);
    lemma_waiters_exist(s, o);
    if w.len() == 0 {
        lemma_first_none(s, o, 0);
    } else {
        lemma_wake_oldest(s, o);
        let m = woken(s, w[0]);
        assert forall|k: int| 0 <= k < waiters(m.links, o).len() implies evaluate(
            m,
            #[trigger] waiters(m.links, o)[k],
        ) == Satisfy::NotYet by {
            assert(waiters(m.links, o)[k] == w[k + 1]);
            assert(w[k + 1] != w[0]);
            lemma_plain_evaluate(m, o, waiters(m.links, o)[k]);
        }
        lemma_first_none(m, o, 0);
        assert(wake_waiters(m, o, n - 1) == (m, 0int));
        lemma_woke_next(s, m, m, w, 0);
    }
}

/// What a thread acquires it gives back: acquiring a mutant and releasing it once leaves
/// it as it was, at whatever depth, when nobody waits for it.
pub proof fn a_mutant_is_given_back(s: Sched, o: usize, timeout: Option<u64>, sp: Spaces)
    requires
        sched_sound(s),
        o < s.objects.len(),
        s.objects[o as int].header.object_type == DispatcherObjectType::Mutant,
        s.objects[o as int].header.signal_state > i32::MIN,
        if s.objects[o as int].header.signal_state > 0 {
            s.objects[o as int].header.signal_state == 1 && s.objects[o as int].owner is None
        } else {
            s.objects[o as int].owner == Some(s.current)
        },
        waiters(s.links, o).len() == 0,
    ensures
        ({
            let (s1, r) = waited(s, seq![o], WaitType::Any, timeout, sp);
            let (s2, woke) = mutant_released(s1, o);
            &&& r == WaitOutcome::Done(NtStatus(0))
            &&& s1.objects[o as int].owner == Some(s.current)
            &&& woke == 0
            &&& s2.objects == s.objects
        }),
{
    a_wait_acquires_a_mutant(s, o, WaitType::Any, timeout, sp);
    let s1 = waited(s, seq![o], WaitType::Any, timeout, sp).0;
    lemma_single_outcome(s, o, WaitType::Any, timeout, sp);
    let (s2, woke) = mutant_released(s1, o);
    let x = s1.objects[o as int];
    if x.header.signal_state + 1 > 0 {
        let a = with_signal(s1, o, (x.header.signal_state + 1) as i32);
        let b = Sched {
            objects: a.objects.update(
                o as int,
                DispatcherObject { owner: None, ..a.objects[o as int] },
            ),
            ..a
        };
        lemma_first_none(b, o, 0);
    }
    assert(s2.objects =~= s.objects);
}

/// Releasing a mutant that is owned more than once keeps the owner and wakes nobody.
pub proof fn an_inner_release_keeps_the_owner(s: Sched, o: usize)
    requires
        o < s.objects.len(),
        s.objects[o as int].header.signal_state < 0,
    ensures
        ({
            let (s1, woke) = mutant_released(s, o);
            &&& woke == 0
            &&& s1.objects[o as int].owner == s.objects[o as int].owner
            &&& s1.objects[o as int].header.signal_state
                == s.objects[o as int].header.signal_state + 1
            &&& s1.links == s.links
            &&& s1.threads == s.threads
        }),
{
}

// ---------------------------------------------------------------------------
// Several objects
// ---------------------------------------------------------------------------
/// Object `o` is to be had by thread `t`: it counts above 0, or it is a mutant that the
/// thread owns.
pub open spec fn to_be_had(objects: Seq<DispatcherObject>, t: usize, o: usize) -> bool {
    let obj = objects[o as int];
    ||| obj.header.signal_state > 0
    ||| obj.header.object_type == DispatcherObjectType::Mutant && obj.owner == Some(t)
}

proof fn lemma_laid_out(s: Sched, objects: Seq<usize>, wait_type: WaitType)
    requires
        sched_sound(s),
        objects.len() <= THREAD_WAIT_OBJECTS,
    ensures
        ({
            let th = prepared(s, objects, wait_type).threads[s.current as int];
            &&& th.wait_count == objects.len()
            &&& th.wait_type == wait_type
            &&& !th.wait_timed
            &&& forall|i: int|
                0 <= i < objects.len() ==> (#[trigger] th.wait_blocks.at(i)).object == objects[i]
                    && th.wait_blocks.at(i).wait_key == i
        }),
{
    let th = s.threads[s.current as int];
    lemma_blocks_for(th.wait_blocks, objects, objects.len() as int, false);
}

proof fn lemma_first_of(s: Sched, t: usize, from: int, i: int)
    requires
        0 <= from <= i < s.threads[t as int].wait_count,
        signaled_for(s.objects, t, s.threads[t as int].wait_blocks.at(i).object),
        forall|k: int|
            from <= k < i ==> !signaled_for(
                s.objects,
                t,
                (#[trigger] s.threads[t as int].wait_blocks.at(k)).object,
            ),
    ensures
        first_signaled(s, t, from) == Some(i as usize),
    decreases i - from,
{
    if from < i {
        let b = s.threads[t as int].wait_blocks.at(from);
        lemma_first_of(s, t, from + 1, i);
    }
}

/// A wait for any of some objects is satisfied by the first that is to be had: its place is
/// what the wait returns, and no other object changes.
pub proof fn a_wait_for_any_takes_the_first(
    s: Sched,
    objects: Seq<usize>,
    timeout: Option<u64>,
    sp: Spaces,
    i: int,
)
    requires
        sched_sound(s),
        objects.len() <= 3,
        forall|k: int| 0 <= k < objects.len() ==> #[trigger] objects[k] < s.objects.len(),
        0 <= i < objects.len(),
        to_be_had(s.objects, s.current, objects[i]),
        forall|k: int| 0 <= k < i ==> !to_be_had(s.objects, s.current, #[trigger] objects[k]),
    ensures
        ({
            let (s1, r) = waited(s, objects, WaitType::Any, timeout, sp);
            &&& r == WaitOutcome::Done(NtStatus(i as u32))
            &&& only_object_changed(s, s1, objects[i])
        }),
{
    lemma_laid_out(s, objects, WaitType::Any);
    let p = prepared(s, objects, WaitType::Any);
    let th = p.threads[s.current as int];
    assert(th.wait_blocks.at(i).object == objects[i]);
    assert forall|k: int| 0 <= k < i implies !signaled_for(
        p.objects,
        s.current,
        (#[trigger] th.wait_blocks.at(k)).object,
    ) by {
        assert(!to_be_had(s.objects, s.current, objects[k]));
    }
    lemma_first_of(p, s.current, 0, i);
}

proof fn lemma_all_of(s: Sched, t: usize, from: int)
    requires
        0 <= from,
    ensures
        all_signaled(s, t, from) <==> forall|k: int|
            from <= k < s.threads[t as int].wait_count ==> signaled_for(
                s.objects,
                t,
                (#[trigger] s.threads[t as int].wait_blocks.at(k)).object,
            ),
    decreases s.threads[t as int].wait_count - from,
{
    if from < s.threads[t as int].wait_count {
        lemma_all_of(s, t, from + 1);
        let b = s.threads[t as int].wait_blocks.at(from);
    }
}

/// A wait for all of some objects that are not all to be had takes none of them: asked
/// without waiting, it times out with every object as it was.
pub proof fn a_wait_for_all_takes_none_until_it_takes_all(
    s: Sched,
    objects: Seq<usize>,
    sp: Spaces,
    i: int,
)
    requires
        sched_sound(s),
        objects.len() <= 3,
        forall|k: int| 0 <= k < objects.len() ==> #[trigger] objects[k] < s.objects.len(),
        0 <= i < objects.len(),
        !to_be_had(s.objects, s.current, objects[i]),
    ensures
        ({
            let (s1, r) = waited(s, objects, WaitType::All, Some(0), sp);
            &&& r == WaitOutcome::Done(NtStatus(0x102))
            &&& s1.objects == s.objects
        }),
{
    lemma_laid_out(s, objects, WaitType::All);
    let p = prepared(s, objects, WaitType::All);
    let th = p.threads[s.current as int];
    lemma_all_of(p, s.current, 0);
    assert(!signaled_for(p.objects, s.current, th.wait_blocks.at(i).object));
}

/// What a wait takes from an object of each type.
pub open spec fn taken(a: DispatcherObject, b: DispatcherObject, t: usize) -> bool {
    let n = a.header.signal_state;
    let m = b.header.signal_state;
    &&& b.header.object_type == a.header.object_type
    &&& match a.header.object_type {
        DispatcherObjectType::Semaphore => m == n - 1 && b.owner == a.owner,
        DispatcherObjectType::SynchronizationEvent => m == 0 && b.owner == a.owner,
        DispatcherObjectType::Mutant => m == n - 1 && b.owner == Some(t),
        _ => b == a,
    }
}

proof fn lemma_consumed_each(
    objects: Seq<DispatcherObject>,
    th: Kthread,
    t: usize,
    n: int,
)
    requires
        0 <= n <= th.wait_count <= 3,
        forall|k: int| 0 <= k < n ==> (#[trigger] th.wait_blocks.at(k)).object < objects.len(),
        forall|j: int, k: int|
            0 <= j < k < n ==> (#[trigger] th.wait_blocks.at(j)).object != (
            #[trigger] th.wait_blocks.at(k)).object,
        forall|k: int|
            0 <= k < n ==> objects[(#[trigger] th.wait_blocks.at(
                k,
            )).object as int].header.signal_state > i32::MIN,
    ensures
        ({
            let r = consume_blocks(objects, th, t, n);
            &&& r.len() == objects.len()
            &&& forall|k: int|
                0 <= k < n ==> taken(
                    objects[(#[trigger] th.wait_blocks.at(k)).object as int],
                    r[th.wait_blocks.at(k).object as int],
                    t,
                )
            &&& forall|x: int|
                0 <= x < objects.len() && (forall|k: int|
                    0 <= k < n ==> (#[trigger] th.wait_blocks.at(k)).object != x)
                    ==> #[trigger] r[x] == objects[x]
        }),
    decreases n,
{
    if n > 0 {
        lemma_consumed_each(objects, th, t, n - 1);
        let r0 = consume_blocks(objects, th, t, n - 1);
        let r = consume_blocks(objects, th, t, n);
        let o = th.wait_blocks.at(n - 1).object;
        assert(r0[o as int] == objects[o as int]);
        assert(r == r0.update(o as int, crate::ke::scheduler::consumed(r0[o as int], t)));
        assert forall|k: int| 0 <= k < n implies taken(
            objects[(#[trigger] th.wait_blocks.at(k)).object as int],
            r[th.wait_blocks.at(k).object as int],
            t,
        ) by {
            if k < n - 1 {
                assert(th.wait_blocks.at(k).object != o);
            }
        }
    }
}

/// A wait for all of some different objects, each of them to be had, takes from each what a
/// wait for it alone would.
pub proof fn a_wait_for_all_takes_each_once(
    s: Sched,
    objects: Seq<usize>,
    timeout: Option<u64>,
    sp: Spaces,
)
    requires
        sched_sound(s),
        0 < objects.len() <= 3,
        objects.no_duplicates(),
        forall|k: int| 0 <= k < objects.len() ==> #[trigger] objects[k] < s.objects.len(),
        forall|k: int|
            0 <= k < objects.len() ==> to_be_had(s.objects, s.current, #[trigger] objects[k]),
        forall|k: int|
            0 <= k < objects.len() ==> s.objects[(
            #[trigger] objects[k]) as int].header.signal_state > i32::MIN,
    ensures
        ({
            let (s1, r) = waited(s, objects, WaitType::All, timeout, sp);
            &&& r == WaitOutcome::Done(NtStatus(0))
            &&& s1.objects.len() == s.objects.len()
            &&& forall|k: int|
                0 <= k < objects.len() ==> taken(
                    s.objects[(#[trigger] objects[k]) as int],
                    s1.objects[objects[k] as int],
                    s.current,
                )
            &&& forall|x: usize|
                x < s.objects.len() && !objects.contains(x) ==> #[trigger] s1.objects[x as int]
                    == s.objects[x as int]
        }),
{
    lemma_laid_out(s, objects, WaitType::All);
    let p = prepared(s, objects, WaitType::All);
    let th = p.threads[s.current as int];
    lemma_all_of(p, s.current, 0);
    assert forall|k: int| 0 <= k < th.wait_count implies signaled_for(
        p.objects,
        s.current,
        (#[trigger] th.wait_blocks.at(k)).object,
    ) by {
        assert(to_be_had(s.objects, s.current, objects[k]));
    }
    assert forall|k: int| 0 <= k < th.wait_count implies (#[trigger] th.wait_blocks.at(k)).object
        < s.objects.len() && s.objects[th.wait_blocks.at(k).object as int].header.signal_state
        > i32::MIN by {
        assert(objects[k] < s.objects.len());
    }
    assert forall|j: int, k: int| 0 <= j < k < th.wait_count implies (
    #[trigger] th.wait_blocks.at(j)).object != (#[trigger] th.wait_blocks.at(k)).object by {
        assert(objects[j] != objects[k]);
    }
    lemma_consumed_each(s.objects, th, s.current, th.wait_count as int);
    let s1 = waited(s, objects, WaitType::All, timeout, sp).0;
    assert forall|k: int| 0 <= k < objects.len() implies taken(
        s.objects[(#[trigger] objects[k]) as int],
        s1.objects[objects[k] as int],
        s.current,
    ) by {
        assert(th.wait_blocks.at(k).object == objects[k]);
    }
    assert forall|x: usize| x < s.objects.len() && !objects.contains(x) implies
        #[trigger] s1.objects[x as int] == s.objects[x as int] by {
        assert forall|k: int| 0 <= k < th.wait_count implies (
        #[trigger] th.wait_blocks.at(k)).object != x by {
            assert(objects.contains(objects[k]));
        }
    }
}

// ---------------------------------------------------------------------------
// Blocking
// ---------------------------------------------------------------------------
/// A wait for what is not to be had blocks: the thread is waiting, last on the object's
/// list, and another runs. With a timeout of `n` ticks its timer is armed for `n` ticks
/// from now, and for one at least.
pub proof fn a_wait_for_what_is_not_there_blocks(
    s: Sched,
    o: usize,
    timeout: Option<u64>,
    sp: Spaces,
)
    requires
        sched_sound(s),
        o < s.objects.len(),
        !to_be_had(s.objects, s.current, o),
        timeout != Some(0u64),
        s.current != s.idle,
        forall|p: int, i: int|
            0 <= p < 32 && 0 <= i < s.ready[p].len() ==> #[trigger] s.ready[p][i] != s.current,
        timeout matches Some(n) ==> s.tick + n <= u64::MAX,
    ensures
        ({
            let (s1, r) = waited(s, seq![o], WaitType::Any, timeout, sp);
            let me = s.current as int;
            &&& r matches WaitOutcome::Blocked(w) && w.from == s.current && w.to == s1.current
            &&& s1.current != s.current
            &&& s1.threads[s1.current as int].state == ThreadState::Running
            &&& s1.threads[me].state == ThreadState::Waiting
            &&& s1.threads[me].wait_timed == (timeout is Some)
            &&& timeout is None ==> s1.links == s.links.push(
                WaitLink { object: o, thread: s.current },
            ) && s1.objects == s.objects && s1.timers == s.timers
            &&& timeout matches Some(n) ==> {
                let t = s.threads[me].timer;
                &&& s1.objects[t as int].due_tick == s.tick + n
                &&& s1.objects[t as int].inserted
                &&& s1.objects[t as int].header.signal_state == 0
                &&& s1.timers == s.timers.push(t)
                &&& s1.earliest <= s.tick + n
                &&& s1.links == s.links.push(WaitLink { object: o, thread: s.current }).push(
                    WaitLink { object: t, thread: s.current },
                )
                &&& other_objects_kept(s, s1, t)
            }
        }),
{
    let p = prepared(s, seq![o], WaitType::Any);
    lemma_single(s, o, WaitType::Any);
    let b = blocked(p, seq![o], timeout);
    let me = s.current;
    assert(thread_sound(s.threads[me as int], s.objects.len() as int));
    assert(links_for(seq![o], me) =~= seq![WaitLink { object: o, thread: me }]);
    assert(s.links + seq![WaitLink { object: o, thread: me }] =~= s.links.push(
        WaitLink { object: o, thread: me },
    ));
    choice_is_highest_and_oldest(b.ready);
    let (ready, chosen) = next_ready(b.ready);
    match chosen {
        Some(t) => {
            let q = choose|q: int|
                {
                    &&& 0 <= q < PRIORITIES
                    &&& b.ready[q].len() > 0
                    &&& #[trigger] b.ready[q][0] == t
                };
            assert(s.ready[q][0] != me);
            assert(s.ready[q][0] < s.threads.len());
        },
        None => {},
    }
    if timeout is Some {
        let t = s.threads[me as int].timer;
        let objects = b.objects;
        assert(b.timers == s.timers.push(t));
        assert(b.timers.last() == t);
    }
}

/// A thread that blocks waits in line behind those that wait already, once for each object,
/// and no object and no other thread changes.
pub proof fn a_blocked_thread_waits_in_line(s: Sched, objects: Seq<usize>, t: int, i: int)
    requires
        sched_sound(s),
        objects.len() <= 3,
        0 <= t < s.threads.len(),
        0 <= i < objects.len(),
    ensures
        ({
            let b = blocked(s, objects, None);
            &&& b.threads[s.current as int].state == ThreadState::Waiting
            &&& !b.threads[s.current as int].wait_timed
            &&& b.links.len() == s.links.len() + objects.len()
            &&& b.links.take(s.links.len() as int) == s.links
            &&& b.links[s.links.len() + i] == (WaitLink { object: objects[i], thread: s.current })
            &&& b.objects == s.objects
            &&& b.timers == s.timers
            &&& t != s.current ==> b.threads[t] == s.threads[t]
        }),
{
    let b = blocked(s, objects, None);
    assert(b.links.take(s.links.len() as int) =~= s.links);
}

/// A wait with a time arms the thread's own timer for as many ticks from now, one at least,
/// and waits for that timer too.
pub proof fn a_timed_wait_arms_its_timer(s: Sched, objects: Seq<usize>, ticks: u64)
    requires
        sched_sound(s),
        objects.len() <= 3,
        s.tick + ticks <= u64::MAX,
        s.tick < u64::MAX,
    ensures
        ({
            let th = s.threads[s.current as int];
            let b = blocked(s, objects, Some(ticks));
            let timer = b.objects[th.timer as int];
            &&& ticks >= 1 ==> timer.due_tick == s.tick + ticks
            &&& ticks == 0 ==> timer.due_tick == s.tick + 1
            &&& timer.inserted
            &&& timer.header.signal_state == 0
            &&& b.timers == s.timers.push(th.timer)
            &&& b.links.last() == (WaitLink { object: th.timer, thread: s.current })
            &&& b.threads[s.current as int].wait_timed
            &&& b.threads[s.current as int].state == ThreadState::Waiting
            &&& b.earliest <= timer.due_tick
        }),
{
    let th = s.threads[s.current as int];
    let b = blocked(s, objects, Some(ticks));
    assert(thread_sound(th, s.objects.len() as int));
    assert(b.timers.drop_last() =~= s.timers);
    assert(b.timers.last() == th.timer);
}

/// A thread whose time ran out while nothing it waits for was signaled is told so: it is ready
/// again, waits for nothing any more, and has taken nothing.
pub proof fn a_wait_whose_time_ran_out_is_told_so(s: Sched, t: usize, o: int)
    requires
        sched_sound(s),
        t < s.threads.len(),
        evaluate(s, t) == Satisfy::Timeout,
        0 <= o < s.objects.len(),
    ensures
        ({
            let th = s.threads[t as int];
            let w = woken(s, t);
            &&& w.threads[t as int].wait_status == NtStatus(0x102)
            &&& w.threads[t as int].state == ThreadState::Ready
            &&& !w.threads[t as int].wait_timed
            &&& w.ready[th.priority as int].last() == t
            &&& w.objects[o].header == s.objects[o].header
            &&& w.objects[o].owner == s.objects[o].owner
            &&& !w.objects[th.timer as int].inserted
            &&& !w.timers.contains(th.timer)
        }),
{
    let th = s.threads[t as int];
    assert(thread_sound(th, s.objects.len() as int));
    assert(th.wait_timed);
    lemma_gone(s.timers, th.timer);
}

proof fn lemma_gone(timers: Seq<usize>, o: usize)
    ensures
        !without_timer(timers, o).contains(o),
    decreases timers.len(),
{
    if timers.len() > 0 {
        lemma_gone(timers.drop_last(), o);
        let rest = without_timer(timers.drop_last(), o);
        let now = without_timer(timers, o);
        if now.contains(o) {
            let k = choose|k: int| 0 <= k < now.len() && now[k] == o;
            if k < rest.len() {
                assert(rest[k] == o);
            }
        }
    }
}

/// Time runs out only for a wait that has a time, once its timer is signaled.
pub proof fn time_runs_out_with_the_timer(s: Sched, t: usize)
    requires
        t < s.threads.len(),
    ensures
        evaluate(s, t) == Satisfy::Timeout ==> s.threads[t as int].wait_timed
            && s.objects[s.threads[t as int].timer as int].header.signal_state > 0,
        evaluate(s, t) == Satisfy::NotYet ==> !(s.threads[t as int].wait_timed
            && s.objects[s.threads[t as int].timer as int].header.signal_state > 0),
{
}

/// A delay of no time ends at once; any other blocks the thread until its timer is due.
pub proof fn a_delay_lasts_its_ticks(s: Sched, ticks: u64, sp: Spaces)
    requires
        sched_sound(s),
        0 < ticks,
        s.tick + ticks <= u64::MAX,
    ensures
        waited(s, Seq::empty(), WaitType::All, Some(0), sp).1 == WaitOutcome::Done(NtStatus(0x102)),
        ({
            let th = s.threads[s.current as int];
            let (s2, r) = waited(s, Seq::empty(), WaitType::All, Some(ticks), sp);
            s2.objects[th.timer as int].due_tick == s.tick + ticks
                && s2.objects[th.timer as int].inserted
        }),
{
    let th = s.threads[s.current as int];
    assert(thread_sound(th, s.objects.len() as int));
}

} // verus!
