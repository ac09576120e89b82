//! What the dispatcher promises as a whole.
//!
//! The central promise is that no wake-up is lost: in a state the dispatcher
//! reaches, no thread is blocked while its wait could complete.
use crate::ke::dispatcher::{DispatcherObject, DispatcherObjectType};
use crate::ke::ready::{highest_ready, lemma_highest, next_ready, PRIORITIES};
use crate::ke::scheduler::{
    all_signaled, blocked, consume_blocks, consume_one, evaluate, first_satisfied,
    first_signaled, lemma_blocked, lemma_blocks_for, lemma_consume_len, lemma_evaluate_index,
    lemma_first_satisfied, lemma_prepared, lemma_switched, lemma_without_thread, lemma_woken,
    outcome, prepared, sched_sound, signaled_for, switched, thread_sound, timed_out, wait_tested,
    waited, wake_waiters, with_signal, without_thread, woken, Satisfy, Sched, Spaces, WaitLink,
};
use crate::ke::signal::{mutant_released, one_more, preempted};
use crate::ke::thread::{Kthread, ThreadState, WaitType, DEFAULT_QUANTUM, THREAD_WAIT_OBJECTS};
use vstd::prelude::*;

verus! {

/// No blocked thread could go on.
pub open spec fn quiescent(s: Sched) -> bool {
    forall|i: int|
        0 <= i < s.links.len() ==> evaluate(s, (#[trigger] s.links[i]).thread) == Satisfy::NotYet
}

/// Thread `t` is on the wait list of `o`.
pub open spec fn on_list(links: Seq<WaitLink>, o: usize, t: usize) -> bool {
    exists|j: int| 0 <= j < links.len() && #[trigger] links[j] == (WaitLink { object: o, thread: t })
}

/// A blocked thread is on the wait list of everything it waits for.
pub open spec fn fully_linked(s: Sched) -> bool {
    forall|i: int|
        0 <= i < s.links.len() ==> {
            let t = (#[trigger] s.links[i]).thread;
            let th = s.threads[t as int];
            &&& forall|k: int|
                0 <= k < th.wait_count ==> on_list(
                    s.links,
                    (#[trigger] th.wait_blocks.at(k)).object,
                    t,
                )
            &&& th.wait_timed ==> on_list(s.links, th.timer, t)
        }
}

/// Counts are so far from the smallest number that `n` satisfied waits cannot
/// reach it.
pub open spec fn roomy(objects: Seq<DispatcherObject>, n: int) -> bool {
    &&& 0 - 3 * n > i32::MIN
    &&& forall|x: int|
        0 <= x < objects.len() ==> (#[trigger] objects[x]).header.signal_state - 3 * n > i32::MIN
}

/// From `a` to `b` no object becomes signaled for a thread other than `t`.
spec fn shrinks(a: Seq<DispatcherObject>, b: Seq<DispatcherObject>, t: usize) -> bool {
    &&& a.len() == b.len()
    &&& forall|x: int|
        0 <= x < a.len() ==> ((#[trigger] b[x]).header.signal_state > 0
            ==> a[x].header.signal_state > 0)
    &&& forall|x: int, u: usize|
        0 <= x < a.len() && u != t && x <= usize::MAX && #[trigger] signaled_for(b, u, x as usize)
            ==> signaled_for(a, u, x as usize)
}

/// Two threads wait for the same objects in the same way.
spec fn same_wait(a: Kthread, b: Kthread) -> bool {
    &&& a.wait_type == b.wait_type
    &&& a.wait_count == b.wait_count
    &&& a.wait_timed == b.wait_timed
    &&& a.timer == b.timer
    &&& forall|k: int|
        0 <= k < a.wait_count ==> (#[trigger] b.wait_blocks.at(k)).object
            == a.wait_blocks.at(k).object
}

proof fn lemma_consume_one(objects: Seq<DispatcherObject>, o: usize, t: usize)
    requires
        o < objects.len(),
        objects[o as int].header.signal_state > i32::MIN,
    ensures
        shrinks(objects, consume_one(objects, o, t), t),
        forall|x: int|
            0 <= x < objects.len() ==> (#[trigger] consume_one(objects, o, t)[x]).header.signal_state
                >= objects[x].header.signal_state - 1 || consume_one(
                objects,
                o,
                t,
            )[x].header.signal_state == 0,
{
}

proof fn lemma_consume_blocks(objects: Seq<DispatcherObject>, th: Kthread, t: usize, n: int, m: int)
    requires
        thread_sound(th, objects.len() as int),
        0 <= n <= th.wait_count,
        roomy(objects, m + 1),
        0 <= m,
    ensures
        shrinks(objects, consume_blocks(objects, th, t, n), t),
        forall|x: int|
            0 <= x < objects.len() ==> (#[trigger] consume_blocks(
                objects,
                th,
                t,
                n,
            )[x]).header.signal_state - 3 * m - 3 + n > i32::MIN,
    decreases n,
{
    if n > 0 {
        lemma_consume_blocks(objects, th, t, n - 1, m);
        lemma_consume_len(objects, th, t, n - 1);
        let prev = consume_blocks(objects, th, t, n - 1);
        let o = th.wait_blocks.at(n - 1).object;
        assert(o < objects.len());
        assert(prev[o as int].header.signal_state > i32::MIN);
        lemma_consume_one(prev, o, t);
        let next = consume_blocks(objects, th, t, n);
        assert forall|x: int, u: usize|
            0 <= x < objects.len() && u != t && x <= usize::MAX && #[trigger] signaled_for(
                next,
                u,
                x as usize,
            ) implies signaled_for(objects, u, x as usize) by {
            assert(signaled_for(prev, u, x as usize));
        }
        assert forall|x: int|
            0 <= x < objects.len() && (#[trigger] next[x]).header.signal_state
                > 0 implies objects[x].header.signal_state > 0 by {
            assert(prev[x].header.signal_state > 0);
        }
        assert forall|x: int| 0 <= x < objects.len() implies (#[trigger] next[x]).header.signal_state
            - 3 * m - 3 + n > i32::MIN by {
            assert(prev[x].header.signal_state - 3 * m - 3 + (n - 1) > i32::MIN);
            assert(objects[x].header.signal_state - 3 * (m + 1) > i32::MIN);
        }
    } else {
        assert forall|x: int| 0 <= x < objects.len() implies (#[trigger] objects[x]).header.signal_state
            - 3 * m - 3 > i32::MIN by {
            assert(objects[x].header.signal_state - 3 * (m + 1) > i32::MIN);
        }
    }
}

/// Objects that become signaled for no one keep a wait from completing.
proof fn lemma_still_not_yet(a: Sched, b: Sched, u: usize, t: usize)
    requires
        sched_sound(a),
        u != t,
        u < a.threads.len(),
        same_wait(a.threads[u as int], b.threads[u as int]),
        shrinks(a.objects, b.objects, t),
        evaluate(a, u) == Satisfy::NotYet,
    ensures
        evaluate(b, u) == Satisfy::NotYet,
{
    let th = a.threads[u as int];
    assert(thread_sound(th, a.objects.len() as int));
    match th.wait_type {
        WaitType::Any => lemma_first_shrinks(a, b, u, t, 0),
        WaitType::All => if th.wait_count > 0 {
            lemma_all_shrinks(a, b, u, t, 0);
        },
    }
    if timed_out(b, u) {
        assert(b.objects[th.timer as int].header.signal_state > 0);
        assert(a.objects[th.timer as int].header.signal_state > 0);
    }
}

proof fn lemma_first_shrinks(a: Sched, b: Sched, u: usize, t: usize, i: int)
    requires
        0 <= i,
        u != t,
        same_wait(a.threads[u as int], b.threads[u as int]),
        thread_sound(a.threads[u as int], a.objects.len() as int),
        shrinks(a.objects, b.objects, t),
        first_signaled(a, u, i) is None,
    ensures
        first_signaled(b, u, i) is None,
    decreases a.threads[u as int].wait_count - i,
{
    let th = a.threads[u as int];
    if i < th.wait_count {
        let o = th.wait_blocks.at(i).object;
        assert(o < a.objects.len());
        assert(!signaled_for(a.objects, u, o));
        if signaled_for(b.objects, u, o) {
            assert(signaled_for(a.objects, u, (o as int) as usize));
        }
        lemma_first_shrinks(a, b, u, t, i + 1);
    }
}

proof fn lemma_all_shrinks(a: Sched, b: Sched, u: usize, t: usize, i: int)
    requires
        0 <= i,
        u != t,
        same_wait(a.threads[u as int], b.threads[u as int]),
        thread_sound(a.threads[u as int], a.objects.len() as int),
        shrinks(a.objects, b.objects, t),
        !all_signaled(a, u, i),
    ensures
        !all_signaled(b, u, i),
    decreases a.threads[u as int].wait_count - i,
{
    let th = a.threads[u as int];
    if i < th.wait_count {
        let o = th.wait_blocks.at(i).object;
        assert(o < a.objects.len());
        if signaled_for(b.objects, u, o) {
            assert(signaled_for(b.objects, u, (o as int) as usize));
            assert(signaled_for(a.objects, u, o));
            lemma_all_shrinks(a, b, u, t, i + 1);
        }
    }
}

/// Waking one thread makes nothing signaled for the others, and uses up at most
/// three counts of any object.
proof fn lemma_wake_shrinks(s: Sched, t: usize, m: int)
    requires
        sched_sound(s),
        t < s.threads.len(),
        roomy(s.objects, m + 1),
        0 <= m,
    ensures
        shrinks(s.objects, woken(s, t).objects, t),
        roomy(woken(s, t).objects, m),
{
    let th = s.threads[t as int];
    let r = evaluate(s, t);
    let (objects, status) = outcome(s, t, r);
    assert(thread_sound(th, s.objects.len() as int));
    lemma_evaluate_index(s, t);
    lemma_consume_blocks(s.objects, th, t, th.wait_count as int, m);
    lemma_consume_len(s.objects, th, t, th.wait_count as int);
    match r {
        Satisfy::Any(i) => {
            let o = th.wait_blocks.at(i as int).object;
            assert(o < s.objects.len());
            assert(s.objects[o as int].header.signal_state - 3 * (m + 1) > i32::MIN);
            lemma_consume_one(s.objects, o, t);
        },
        _ => {},
    }
    assert(shrinks(s.objects, objects, t));
    let w = woken(s, t).objects;
    assert(w.len() == objects.len());
    assert forall|x: int| 0 <= x < w.len() implies (#[trigger] w[x]).header == objects[x].header
        && w[x].owner == objects[x].owner by {}
    assert forall|x: int, u: usize|
        0 <= x < s.objects.len() && u != t && x <= usize::MAX && #[trigger] signaled_for(
            w,
            u,
            x as usize,
        ) implies signaled_for(s.objects, u, x as usize) by {
        assert(w[x].header == objects[x].header);
        assert(signaled_for(objects, u, x as usize));
    }
    assert forall|x: int|
        0 <= x < s.objects.len() && (#[trigger] w[x]).header.signal_state
            > 0 implies s.objects[x].header.signal_state > 0 by {
        assert(w[x].header == objects[x].header);
        assert(objects[x].header.signal_state > 0);
    }
    assert forall|x: int| 0 <= x < w.len() implies (#[trigger] w[x]).header.signal_state - 3 * m
        > i32::MIN by {
        assert(w[x].header == objects[x].header);
        assert(s.objects[x].header.signal_state - 3 * (m + 1) > i32::MIN);
        match r {
            Satisfy::All => {
                assert(objects[x].header.signal_state - 3 * m - 3 + th.wait_count > i32::MIN);
            },
            _ => {},
        }
    }
}

/// Whoever could go on is on the list of `o`.
spec fn only_waiters_of(s: Sched, o: usize) -> bool {
    forall|i: int|
        0 <= i < s.links.len() && evaluate(s, (#[trigger] s.links[i]).thread) != Satisfy::NotYet
            ==> on_list(s.links, o, s.links[i].thread)
}

proof fn lemma_kept_link(s: Sched, t: usize, o: usize, u: usize)
    requires
        on_list(s.links, o, u),
        u != t,
    ensures
        on_list(without_thread(s.links, t), o, u),
{
    let j = choose|j: int|
        0 <= j < s.links.len() && #[trigger] s.links[j] == (WaitLink { object: o, thread: u });
    lemma_kept(s.links, t, j);
}

proof fn lemma_kept(links: Seq<WaitLink>, t: usize, j: int)
    requires
        0 <= j < links.len(),
        links[j].thread != t,
    ensures
        exists|k: int|
            0 <= k < without_thread(links, t).len() && #[trigger] without_thread(links, t)[k]
                == links[j],
    decreases links.len(),
{
    let init = links.drop_last();
    let r = without_thread(links, t);
    if j == links.len() - 1 {
        assert(r[r.len() - 1] == links[j]);
    } else {
        lemma_kept(init, t, j);
        let k = choose|k: int|
            0 <= k < without_thread(init, t).len() && #[trigger] without_thread(init, t)[k]
                == init[j];
        assert(r[k] == links[j]);
    }
}

proof fn lemma_wake_step(s: Sched, o: usize, t: usize, m: int)
    requires
        sched_sound(s),
        fully_linked(s),
        only_waiters_of(s, o),
        t < s.threads.len(),
        roomy(s.objects, m + 1),
        0 <= m,
    ensures
        sched_sound(woken(s, t)),
        fully_linked(woken(s, t)),
        only_waiters_of(woken(s, t), o),
        roomy(woken(s, t).objects, m),
{
    lemma_woken(s, t);
    lemma_wake_shrinks(s, t, m);
    lemma_without_thread(s.links, t);
    let w = woken(s, t);
    assert forall|i: int| 0 <= i < w.links.len() implies {
        let u = (#[trigger] w.links[i]).thread;
        let th = w.threads[u as int];
        &&& u != t
        &&& s.threads[u as int] == th
        &&& u < s.threads.len()
        &&& exists|k: int| 0 <= k < s.links.len() && #[trigger] s.links[k] == w.links[i]
    } by {
        assert(s.links.contains(w.links[i]));
        let k = choose|k: int| 0 <= k < s.links.len() && s.links[k] == w.links[i];
        assert(s.links[k] == w.links[i]);
    }
    assert forall|i: int| 0 <= i < w.links.len() implies {
        let u = (#[trigger] w.links[i]).thread;
        let th = w.threads[u as int];
        &&& forall|k: int|
            0 <= k < th.wait_count ==> on_list(w.links, (#[trigger] th.wait_blocks.at(k)).object, u)
        &&& th.wait_timed ==> on_list(w.links, th.timer, u)
    } by {
        let u = w.links[i].thread;
        let th = w.threads[u as int];
        let j = choose|j: int| 0 <= j < s.links.len() && #[trigger] s.links[j] == w.links[i];
        assert(s.links[j].thread == u);
        assert forall|k: int| 0 <= k < th.wait_count implies on_list(
            w.links,
            (#[trigger] th.wait_blocks.at(k)).object,
            u,
        ) by {
            assert(on_list(s.links, th.wait_blocks.at(k).object, u));
            lemma_kept_link(s, t, th.wait_blocks.at(k).object, u);
        }
        if th.wait_timed {
            lemma_kept_link(s, t, th.timer, u);
        }
    }
    assert forall|i: int|
        0 <= i < w.links.len() && evaluate(w, (#[trigger] w.links[i]).thread)
            != Satisfy::NotYet implies on_list(w.links, o, w.links[i].thread) by {
        let u = w.links[i].thread;
        let j = choose|j: int| 0 <= j < s.links.len() && #[trigger] s.links[j] == w.links[i];
        assert(s.links[j].thread == u);
        if evaluate(s, u) == Satisfy::NotYet {
            lemma_still_not_yet(s, w, u, t);
        }
        assert(on_list(s.links, o, u));
        lemma_kept_link(s, t, o, u);
    }
}

proof fn lemma_wake_all(s: Sched, o: usize, n: int)
    requires
        sched_sound(s),
        fully_linked(s),
        only_waiters_of(s, o),
        roomy(s.objects, n),
        n >= s.links.len(),
    ensures
        sched_sound(wake_waiters(s, o, n).0),
        fully_linked(wake_waiters(s, o, n).0),
        quiescent(wake_waiters(s, o, n).0),
    decreases n,
{
    lemma_first_satisfied(s, o, 0);
    match first_satisfied(s, o, 0) {
        None => {
            assert forall|i: int| 0 <= i < s.links.len() implies evaluate(
                s,
                (#[trigger] s.links[i]).thread,
            ) == Satisfy::NotYet by {
                if evaluate(s, s.links[i].thread) != Satisfy::NotYet {
                    assert(on_list(s.links, o, s.links[i].thread));
                    let j = choose|j: int|
                        0 <= j < s.links.len() && #[trigger] s.links[j] == (WaitLink {
                            object: o,
                            thread: s.links[i].thread,
                        });
                    assert(s.links[j].object == o);
                }
            }
        },
        Some(t) => {
            let k = choose|k: int|
                0 <= k < s.links.len() && #[trigger] s.links[k] == (WaitLink {
                    object: o,
                    thread: t,
                });
            assert(s.links[k].thread == t);
            assert(n > 0);
            lemma_wake_step(s, o, t, n - 1);
            lemma_woken(s, t);
            lemma_without_thread(s.links, t);
            assert(woken(s, t).links.len() < s.links.len());
            lemma_wake_all(woken(s, t), o, n - 1);
        },
    }
}

/// A wait that could not complete and can once `o` has changed waits for `o`.
proof fn lemma_changed(a: Sched, b: Sched, u: usize, o: usize)
    requires
        sched_sound(a),
        u < a.threads.len(),
        o < a.objects.len(),
        b.threads == a.threads,
        b.objects.len() == a.objects.len(),
        forall|x: int| 0 <= x < a.objects.len() && x != o ==> #[trigger] b.objects[x] == a.objects[x],
        evaluate(a, u) == Satisfy::NotYet,
        evaluate(b, u) != Satisfy::NotYet,
    ensures
        ({
            let th = a.threads[u as int];
            ||| exists|k: int| 0 <= k < th.wait_count && (#[trigger] th.wait_blocks.at(k)).object == o
            ||| th.wait_timed && th.timer == o
        }),
{
    let th = a.threads[u as int];
    assert(thread_sound(th, a.objects.len() as int));
    if !(exists|k: int| 0 <= k < th.wait_count && (#[trigger] th.wait_blocks.at(k)).object == o)
        && !(th.wait_timed && th.timer == o) {
        lemma_same_answers(a, b, u, o, 0);
    }
}

proof fn lemma_same_answers(a: Sched, b: Sched, u: usize, o: usize, i: int)
    requires
        0 <= i,
        b.threads == a.threads,
        thread_sound(a.threads[u as int], a.objects.len() as int),
        forall|x: int| 0 <= x < a.objects.len() && x != o ==> #[trigger] b.objects[x] == a.objects[x],
        forall|k: int|
            0 <= k < a.threads[u as int].wait_count ==> (#[trigger] a.threads[u as int].wait_blocks.at(
                k,
            )).object != o,
    ensures
        first_signaled(a, u, i) == first_signaled(b, u, i),
        all_signaled(a, u, i) == all_signaled(b, u, i),
    decreases a.threads[u as int].wait_count - i,
{
    let th = a.threads[u as int];
    if i < th.wait_count {
        let x = th.wait_blocks.at(i).object;
        assert(x < a.objects.len() && x != o);
        assert(b.objects[x as int] == a.objects[x as int]);
        lemma_same_answers(a, b, u, o, i + 1);
    }
}

/// No wake-up is lost: when an object's state changes and its waiters are tested,
/// every thread that is still blocked could not go on, if that held before. The
/// change may be to any state, so this covers setting an event, releasing a
/// semaphore or a mutant, the expiry of a timer and the end of a thread.
pub proof fn no_wakeup_is_lost(s: Sched, changed: Sched, o: usize)
    requires
        sched_sound(s),
        fully_linked(s),
        quiescent(s),
        o < s.objects.len(),
        changed == (Sched { objects: changed.objects, ..s }),
        changed.objects.len() == s.objects.len(),
        forall|x: int|
            0 <= x < s.objects.len() && x != o ==> #[trigger] changed.objects[x] == s.objects[x],
        roomy(changed.objects, s.links.len() as int),
    ensures
        quiescent(wait_tested(changed, o).0),
        fully_linked(wait_tested(changed, o).0),
        sched_sound(wait_tested(changed, o).0),
{
    assert forall|k: int| 0 <= k < changed.threads.len() implies #[trigger] thread_sound(
        changed.threads[k],
        changed.objects.len() as int,
    ) by {
        assert(thread_sound(s.threads[k], s.objects.len() as int));
    }
    assert(fully_linked(changed)) by {
        assert forall|i: int| 0 <= i < changed.links.len() implies {
            let t = (#[trigger] changed.links[i]).thread;
            let th = changed.threads[t as int];
            &&& forall|k: int|
                0 <= k < th.wait_count ==> on_list(
                    changed.links,
                    (#[trigger] th.wait_blocks.at(k)).object,
                    t,
                )
            &&& th.wait_timed ==> on_list(changed.links, th.timer, t)
        } by {
            assert(s.links[i] == changed.links[i]);
        }
    }
    assert forall|i: int|
        0 <= i < changed.links.len() && evaluate(changed, (#[trigger] changed.links[i]).thread)
            != Satisfy::NotYet implies on_list(changed.links, o, changed.links[i].thread) by {
        let u = changed.links[i].thread;
        assert(s.links[i].thread == u);
        assert(evaluate(s, u) == Satisfy::NotYet);
        lemma_changed(s, changed, u, o);
        let th = s.threads[u as int];
        if exists|k: int| 0 <= k < th.wait_count && (#[trigger] th.wait_blocks.at(k)).object == o {
            let k = choose|k: int|
                0 <= k < th.wait_count && (#[trigger] th.wait_blocks.at(k)).object == o;
            assert(on_list(s.links, th.wait_blocks.at(k).object, u));
        } else {
            assert(on_list(s.links, th.timer, u));
        }
    }
    lemma_wake_all(changed, o, changed.links.len() as int);
}

/// Dispatching the next thread changes no wait.
proof fn lemma_switch_keeps(s: Sched, cur: usize, sp: Spaces)
    requires
        sched_sound(s),
        fully_linked(s),
        quiescent(s),
        cur < s.threads.len(),
    ensures
        fully_linked(switched(s, cur, sp).0),
        quiescent(switched(s, cur, sp).0),
{
    lemma_switched(s, cur, sp);
    let r = switched(s, cur, sp).0;
    assert forall|i: int| 0 <= i < s.links.len() implies kept_for(
        s.objects,
        r.objects,
        (#[trigger] s.links[i]).thread,
    ) by {
        assert(shrinks(s.objects, r.objects, someone_else(s.links[i].thread)));
    }
    lemma_same_waits_keep(s, r);
}

/// States with the same links, the same waits and objects that are signaled for
/// no one else are quiescent together.
proof fn lemma_same_waits_keep(s: Sched, r: Sched)
    requires
        sched_sound(s),
        fully_linked(s),
        quiescent(s),
        r.links == s.links,
        r.threads.len() == s.threads.len(),
        r.objects.len() == s.objects.len(),
        forall|i: int|
            0 <= i < s.links.len() ==> same_wait(
                s.threads[(#[trigger] s.links[i]).thread as int],
                r.threads[s.links[i].thread as int],
            ),
        forall|i: int|
            0 <= i < s.links.len() ==> kept_for(
                s.objects,
                r.objects,
                (#[trigger] s.links[i]).thread,
            ),
    ensures
        fully_linked(r),
        quiescent(r),
{
    assert forall|i: int| 0 <= i < r.links.len() implies {
        let u = (#[trigger] r.links[i]).thread;
        let th = r.threads[u as int];
        &&& forall|k: int|
            0 <= k < th.wait_count ==> on_list(r.links, (#[trigger] th.wait_blocks.at(k)).object, u)
        &&& th.wait_timed ==> on_list(r.links, th.timer, u)
    } by {
        let u = s.links[i].thread;
        let a = s.threads[u as int];
        let th = r.threads[u as int];
        assert(same_wait(a, th));
        assert forall|k: int| 0 <= k < th.wait_count implies on_list(
            r.links,
            (#[trigger] th.wait_blocks.at(k)).object,
            u,
        ) by {
            assert(on_list(s.links, a.wait_blocks.at(k).object, u));
        }
    }
    assert forall|i: int| 0 <= i < r.links.len() implies evaluate(r, (#[trigger] r.links[i]).thread)
        == Satisfy::NotYet by {
        let u = s.links[i].thread;
        assert(evaluate(s, s.links[i].thread) == Satisfy::NotYet);
        let t = choose|t: usize| t != u && #[trigger] shrinks(s.objects, r.objects, t);
        lemma_still_not_yet(s, r, u, t);
    }
}

/// From `a` to `b` no object becomes signaled for `u`.
spec fn kept_for(a: Seq<DispatcherObject>, b: Seq<DispatcherObject>, u: usize) -> bool {
    exists|t: usize| t != u && #[trigger] shrinks(a, b, t)
}

spec fn someone_else(u: usize) -> usize {
    if u == 0 {
        1
    } else {
        0
    }
}

/// A blocked wait is on the lists of its objects and cannot complete yet.
proof fn lemma_blocked_keeps(s: Sched, objects: Seq<usize>, timeout: Option<u64>)
    requires
        sched_sound(s),
        sched_sound(blocked(s, objects, timeout)),
        fully_linked(s),
        quiescent(s),
        objects.len() <= THREAD_WAIT_OBJECTS,
        forall|i: int| 0 <= i < s.links.len() ==> (#[trigger] s.links[i]).thread != s.current,
        s.threads[s.current as int].wait_count == objects.len(),
        !s.threads[s.current as int].wait_timed,
        forall|i: int|
            0 <= i < objects.len() ==> (#[trigger] s.threads[s.current as int].wait_blocks.at(
                i,
            )).object == objects[i],
        evaluate(s, s.current) == Satisfy::NotYet,
    ensures
        fully_linked(blocked(s, objects, timeout)),
        quiescent(blocked(s, objects, timeout)),
{
    let cur = s.current;
    let th0 = s.threads[cur as int];
    let r = blocked(s, objects, timeout);
    let th = r.threads[cur as int];
    let n = objects.len() as int;
    lemma_blocks_for(th0.wait_blocks, objects, n, true);
    assert(thread_sound(th0, s.objects.len() as int));
    assert forall|x: int, u: usize|
        0 <= x < s.objects.len() && x <= usize::MAX && #[trigger] signaled_for(
            r.objects,
            u,
            x as usize,
        ) implies signaled_for(s.objects, u, x as usize) by {
        if x != th0.timer {
            assert(r.objects[x] == s.objects[x]);
        }
    }
    assert forall|t: usize| #[trigger] shrinks(s.objects, r.objects, t) by {}
    assert forall|i: int| 0 <= i < s.links.len() implies r.links[i] == #[trigger] s.links[i] by {}
    assert forall|k: int| 0 <= k < n implies on_list(r.links, #[trigger] objects[k], cur) by {
        assert(r.links[s.links.len() + k] == (WaitLink { object: objects[k], thread: cur }));
    }
    if timeout is Some {
        assert(r.links[s.links.len() + n] == (WaitLink { object: th.timer, thread: cur }));
    }
    assert forall|i: int| 0 <= i < r.links.len() implies {
        let u = (#[trigger] r.links[i]).thread;
        let tu = r.threads[u as int];
        &&& forall|k: int|
            0 <= k < tu.wait_count ==> on_list(r.links, (#[trigger] tu.wait_blocks.at(k)).object, u)
        &&& tu.wait_timed ==> on_list(r.links, tu.timer, u)
        &&& evaluate(r, u) == Satisfy::NotYet
    } by {
        let u = r.links[i].thread;
        let tu = r.threads[u as int];
        if u != cur {
            assert(i < s.links.len());
            assert(s.links[i].thread == u);
            assert(tu == s.threads[u as int]);
            assert forall|k: int| 0 <= k < tu.wait_count implies on_list(
                r.links,
                (#[trigger] tu.wait_blocks.at(k)).object,
                u,
            ) by {
                lemma_longer_list(s.links, r.links, tu.wait_blocks.at(k).object, u);
            }
            if tu.wait_timed {
                lemma_longer_list(s.links, r.links, tu.timer, u);
            }
            assert(shrinks(s.objects, r.objects, someone_else(u)));
            lemma_still_not_yet(s, r, u, someone_else(u));
        } else {
            assert forall|k: int| 0 <= k < tu.wait_count implies on_list(
                r.links,
                (#[trigger] tu.wait_blocks.at(k)).object,
                u,
            ) by {
                assert(tu.wait_blocks.at(k).object == objects[k]);
            }
            // The same wait without its timeout cannot complete, and the timeout
            // has only just been set.
            let plain = Sched {
                threads: r.threads.update(cur as int, Kthread { wait_timed: false, ..th }),
                ..r
            };
            assert(shrinks(s.objects, plain.objects, someone_else(u)));
            assert forall|k: int| 0 <= k < n implies (#[trigger] th.wait_blocks.at(k)).object
                == th0.wait_blocks.at(k).object by {
                assert(th0.wait_blocks.at(k).object == objects[k]);
            }
            assert(same_wait(th0, plain.threads[cur as int]));
            lemma_still_not_yet(s, plain, u, someone_else(u));
            lemma_untimed(plain, r, u, 0);
        }
    }
}

proof fn lemma_untimed(a: Sched, b: Sched, u: usize, i: int)
    requires
        0 <= i,
        a.objects == b.objects,
        a.threads[u as int].wait_count == b.threads[u as int].wait_count,
        a.threads[u as int].wait_blocks == b.threads[u as int].wait_blocks,
    ensures
        first_signaled(a, u, i) == first_signaled(b, u, i),
        all_signaled(a, u, i) == all_signaled(b, u, i),
    decreases a.threads[u as int].wait_count - i,
{
    if i < a.threads[u as int].wait_count {
        lemma_untimed(a, b, u, i + 1);
    }
}

proof fn lemma_longer_list(a: Seq<WaitLink>, b: Seq<WaitLink>, o: usize, t: usize)
    requires
        on_list(a, o, t),
        b.len() >= a.len(),
        forall|i: int| 0 <= i < a.len() ==> b[i] == #[trigger] a[i],
    ensures
        on_list(b, o, t),
{
    let j = choose|j: int|
        0 <= j < a.len() && #[trigger] a[j] == (WaitLink { object: o, thread: t });
    assert(b[j] == a[j]);
}

/// A thread blocks only on a wait that cannot complete: whether a wait is
/// satisfied at once, fails as a poll or blocks, no blocked thread could go on
/// afterwards, if that held before. The thread that waits is the running one, so
/// it is on no wait list.
pub proof fn waiting_blocks_only_what_cannot_go_on(
    s: Sched,
    objects: Seq<usize>,
    wait_type: WaitType,
    timeout: Option<u64>,
    sp: Spaces,
)
    requires
        sched_sound(s),
        fully_linked(s),
        quiescent(s),
        forall|i: int| 0 <= i < s.links.len() ==> (#[trigger] s.links[i]).thread != s.current,
        objects.len() <= THREAD_WAIT_OBJECTS,
        forall|i: int| 0 <= i < objects.len() ==> #[trigger] objects[i] < s.objects.len(),
        roomy(s.objects, 1),
    ensures
        fully_linked(waited(s, objects, wait_type, timeout, sp).0),
        quiescent(waited(s, objects, wait_type, timeout, sp).0),
{
    let cur = s.current;
    let th0 = s.threads[cur as int];
    let n = objects.len() as int;
    let s1 = prepared(s, objects, wait_type);
    let r = evaluate(s1, cur);
    assert(thread_sound(th0, s.objects.len() as int));
    lemma_prepared(s, objects, wait_type);
    lemma_blocks_for(th0.wait_blocks, objects, n, false);
    let th = s1.threads[cur as int];
    assert(thread_sound(th, s.objects.len() as int));
    assert forall|i: int| 0 <= i < s.links.len() implies kept_for(
        s.objects,
        s1.objects,
        (#[trigger] s.links[i]).thread,
    ) by {
        assert(shrinks(s.objects, s1.objects, someone_else(s.links[i].thread)));
    }
    lemma_same_waits_keep(s, s1);
    if r != Satisfy::NotYet {
        let (objs, status) = outcome(s1, cur, r);
        let s2 = Sched { objects: objs, ..s1 };
        lemma_evaluate_index(s1, cur);
        lemma_consume_blocks(s1.objects, th, cur, th.wait_count as int, 0);
        lemma_consume_len(s1.objects, th, cur, th.wait_count as int);
        match r {
            Satisfy::Any(i) => {
                let o = th.wait_blocks.at(i as int).object;
                assert(o < s.objects.len());
                assert(s.objects[o as int].header.signal_state - 3 > i32::MIN);
                lemma_consume_one(s1.objects, o, cur);
            },
            _ => {},
        }
        assert(shrinks(s1.objects, s2.objects, cur));
        assert forall|i: int| 0 <= i < s1.links.len() implies kept_for(
            s1.objects,
            s2.objects,
            (#[trigger] s1.links[i]).thread,
        ) by {
            assert(s.links[i].thread != cur);
        }
        lemma_same_waits_keep(s1, s2);
    } else if timeout != Some(0u64) {
        assert forall|i: int| 0 <= i < s1.links.len() implies (#[trigger] s1.links[i]).thread
            != s1.current by {
            assert(s.links[i].thread != cur);
        }
        lemma_blocked(s1, objects, timeout);
        lemma_blocked_keeps(s1, objects, timeout);
        lemma_switch_keeps(blocked(s1, objects, timeout), cur, sp);
    }
}

/// An object that is an auto-reset event and no thread's timer.
pub open spec fn auto_reset(s: Sched, o: usize) -> bool {
    &&& o < s.objects.len()
    &&& s.objects[o as int].header.object_type == DispatcherObjectType::SynchronizationEvent
    &&& forall|t: int| 0 <= t < s.threads.len() ==> (#[trigger] s.threads[t]).timer != o
}

/// Setting an auto-reset event wakes at most one thread, and the event is
/// cleared exactly when it woke one.
pub proof fn auto_reset_event_wakes_at_most_one(s: Sched, o: usize)
    requires
        sched_sound(s),
        fully_linked(s),
        quiescent(s),
        auto_reset(s, o),
        s.objects[o as int].header.signal_state <= 0,
        roomy(with_signal(s, o, 1).objects, s.links.len() as int),
    ensures
        ({
            let (r, woke) = wait_tested(with_signal(s, o, 1), o);
            &&& woke <= 1
            &&& r.objects[o as int].header.signal_state == if woke == 1 {
                0i32
            } else {
                1i32
            }
        }),
{
    let a = with_signal(s, o, 1);
    assert(a.objects.len() == s.objects.len());
    assert forall|k: int| 0 <= k < a.threads.len() implies #[trigger] thread_sound(
        a.threads[k],
        a.objects.len() as int,
    ) by {
        assert(thread_sound(s.threads[k], s.objects.len() as int));
    }
    assert(sched_sound(a));
    lemma_first_satisfied(a, o, 0);
    match first_satisfied(a, o, 0) {
        None => {},
        Some(t) => {
            let k = choose|k: int|
                0 <= k < a.links.len() && #[trigger] a.links[k] == (WaitLink {
                    object: o,
                    thread: t,
                });
            assert(s.links[k].thread == t);
            let th = s.threads[t as int];
            assert(thread_sound(th, s.objects.len() as int));
            assert(evaluate(s, t) == Satisfy::NotYet);
            lemma_evaluate_index(a, t);
            lemma_one_satisfied(s, a, t, o);
            lemma_wake_shrinks(a, t, a.links.len() - 1);
            lemma_woken(a, t);
            lemma_without_thread(a.links, t);
            let w = woken(a, t);
            assert(w.objects[o as int].header.signal_state == 0);
            assert forall|x: int, u: usize|
                0 <= x < s.objects.len() && u != t && x <= usize::MAX && #[trigger] signaled_for(
                    w.objects,
                    u,
                    x as usize,
                ) implies signaled_for(s.objects, u, x as usize) by {
                assert(signaled_for(a.objects, u, x as usize));
                if x == o {
                    assert(w.objects[x].header.object_type
                        == DispatcherObjectType::SynchronizationEvent);
                } else {
                    assert(a.objects[x] == s.objects[x]);
                }
            }
            assert forall|x: int|
                0 <= x < s.objects.len() && (#[trigger] w.objects[x]).header.signal_state
                    > 0 implies s.objects[x].header.signal_state > 0 by {
                assert(a.objects[x].header.signal_state > 0);
                if x != o {
                    assert(a.objects[x] == s.objects[x]);
                }
            }
            assert(shrinks(s.objects, w.objects, t));
            lemma_first_satisfied(w, o, 0);
            match first_satisfied(w, o, 0) {
                None => {},
                Some(u) => {
                    let j = choose|j: int|
                        0 <= j < w.links.len() && #[trigger] w.links[j] == (WaitLink {
                            object: o,
                            thread: u,
                        });
                    assert(a.links.contains(w.links[j]));
                    let i = choose|i: int| 0 <= i < s.links.len() && s.links[i] == w.links[j];
                    assert(s.links[i].thread == u);
                    assert(evaluate(s, u) == Satisfy::NotYet);
                    assert(u != t);
                    assert(w.threads[u as int] == s.threads[u as int]);
                    lemma_still_not_yet(s, w, u, t);
                },
            }
            assert(a.links.len() > 0);
            assert(wake_waiters(w, o, a.links.len() - 1) == (w, 0int));
        },
    }
}

/// A wait that the event alone has satisfied consumes the event.
proof fn lemma_one_satisfied(s: Sched, a: Sched, t: usize, o: usize)
    requires
        sched_sound(s),
        sched_sound(a),
        auto_reset(s, o),
        a == with_signal(s, o, 1),
        t < s.threads.len(),
        evaluate(s, t) == Satisfy::NotYet,
        evaluate(a, t) != Satisfy::NotYet,
    ensures
        woken(a, t).objects[o as int].header.signal_state == 0,
        woken(a, t).objects[o as int].header.object_type
            == DispatcherObjectType::SynchronizationEvent,
{
    let th = s.threads[t as int];
    assert(thread_sound(th, s.objects.len() as int));
    assert(th.timer != o);
    lemma_evaluate_index(a, t);
    assert forall|x: int| 0 <= x < s.objects.len() && x != o implies #[trigger] a.objects[x]
        == s.objects[x] by {}
    match evaluate(a, t) {
        Satisfy::Any(i) => {
            let x = th.wait_blocks.at(i as int).object;
            lemma_none_signaled(s, t, 0, i as int);
            assert(!signaled_for(s.objects, t, x));
            assert(x == o);
        },
        Satisfy::All => {
            if !(exists|k: int|
                0 <= k < th.wait_count && (#[trigger] th.wait_blocks.at(k)).object == o) {
                lemma_same_answers(s, a, t, o, 0);
            }
            let k = choose|k: int|
                0 <= k < th.wait_count && (#[trigger] th.wait_blocks.at(k)).object == o;
            lemma_consume_len(a.objects, th, t, th.wait_count as int);
            lemma_event_consumed(a.objects, th, t, th.wait_count as int, o, k);
        },
        Satisfy::Timeout => {
            assert(a.objects[th.timer as int] == s.objects[th.timer as int]);
            match th.wait_type {
                WaitType::Any => {},
                WaitType::All => {},
            }
        },
        Satisfy::NotYet => {},
    }
}

proof fn lemma_none_signaled(s: Sched, t: usize, i: int, k: int)
    requires
        0 <= i <= k < s.threads[t as int].wait_count,
        first_signaled(s, t, i) is None,
    ensures
        !signaled_for(s.objects, t, s.threads[t as int].wait_blocks.at(k).object),
    decreases k - i,
{
    if i < k {
        lemma_none_signaled(s, t, i + 1, k);
    }
}

/// Consuming a list of blocks that holds an auto-reset event clears the event.
proof fn lemma_event_consumed(
    objects: Seq<DispatcherObject>,
    th: Kthread,
    t: usize,
    n: int,
    o: usize,
    k: int,
)
    requires
        thread_sound(th, objects.len() as int),
        0 <= n <= th.wait_count,
        o < objects.len(),
        objects[o as int].header.object_type == DispatcherObjectType::SynchronizationEvent,
        0 <= k < th.wait_count,
        th.wait_blocks.at(k).object == o,
    ensures
        consume_blocks(objects, th, t, n)[o as int].header.object_type
            == DispatcherObjectType::SynchronizationEvent,
        k < n ==> consume_blocks(objects, th, t, n)[o as int].header.signal_state == 0,
    decreases n,
{
    if n > 0 {
        lemma_event_consumed(objects, th, t, n - 1, o, k);
        lemma_consume_len(objects, th, t, n - 1);
        assert(th.wait_blocks.at(n - 1).object < objects.len());
    }
}

/// A queued thread stands on the queue of its priority.
pub open spec fn queued_by_priority(s: Sched) -> bool {
    forall|p: int, i: int|
        0 <= p < PRIORITIES && 0 <= i < s.ready[p].len() ==> s.threads[(
        #[trigger] s.ready[p][i]) as int].priority == p
}

/// After a dispatch decision no ready thread has a higher priority than the one
/// that runs.
pub proof fn running_thread_is_not_outranked(s: Sched, sp: Spaces)
    requires
        sched_sound(s),
        queued_by_priority(s),
    ensures
        ({
            let (s1, resched) = preempted(s);
            let r = if resched {
                switched(s1, s1.current, sp).0
            } else {
                s1
            };
            forall|p: int|
                r.threads[r.current as int].priority < p < PRIORITIES ==> (#[trigger] r.ready[p]).len()
                    == 0
        }),
{
    let (s1, resched) = preempted(s);
    assert(thread_sound(s.threads[s.current as int], s.objects.len() as int));
    lemma_highest(s.ready, PRIORITIES as int);
    if resched {
        lemma_highest(s1.ready, PRIORITIES as int);
        let t = next_ready(s1.ready).1;
        let p = highest_ready(s1.ready, PRIORITIES as int);
        assert(p is Some) by {
            if s.quantum_end && s.current != s.idle {
                let q = s.threads[s.current as int].priority as int;
                assert(s1.ready[q].len() > 0);
            } else {
                let q = highest_ready(s.ready, PRIORITIES as int)->Some_0;
                assert(s1.ready[q].len() >= s.ready[q].len());
            }
        }
        let top = p->Some_0;
        let first = s1.ready[top][0];
        assert(s1.threads[first as int].priority == top) by {
            if s1.ready[top] == s.ready[top] {
                assert(s.ready[top][0] == first);
            } else {
                assert(top == s.threads[s.current as int].priority);
                if s.ready[top].len() > 0 {
                    assert(s.ready[top][0] == first);
                }
            }
        }
        assert(first < s1.threads.len()) by {
            if s.ready[top].len() > 0 {
                assert(s.ready[top][0] < s.threads.len());
            }
        }
        let r = switched(s1, s1.current, sp).0;
        assert(r.threads[r.current as int].priority == top);
    }
}

/// A thread whose quantum has ended goes behind the others of its priority, with
/// a fresh quantum: threads of one priority take turns.
pub proof fn quantum_end_rotates(s: Sched, sp: Spaces, other: usize)
    requires
        sched_sound(s),
        queued_by_priority(s),
        s.current != s.idle,
        s.quantum_end,
        other != s.current,
        ({
            let p = s.threads[s.current as int].priority as int;
            &&& s.ready[p] == seq![other]
            &&& forall|k: int| p < k < PRIORITIES ==> (#[trigger] s.ready[k]).len() == 0
        }),
    ensures
        ({
            let p = s.threads[s.current as int].priority as int;
            let (s1, resched) = preempted(s);
            let r = switched(s1, s1.current, sp).0;
            &&& resched
            &&& r.current == other
            &&& r.ready[p] == seq![s.current]
            &&& r.threads[s.current as int].quantum == DEFAULT_QUANTUM
            &&& r.threads[s.current as int].state == ThreadState::Ready
            &&& r.threads[other as int].state == ThreadState::Running
        }),
{
    let p = s.threads[s.current as int].priority as int;
    assert(thread_sound(s.threads[s.current as int], s.objects.len() as int));
    let (s1, resched) = preempted(s);
    assert(s1.ready[p] =~= seq![other, s.current]);
    lemma_highest(s1.ready, PRIORITIES as int);
    assert(highest_ready(s1.ready, PRIORITIES as int) == Some(p)) by {
        let q = highest_ready(s1.ready, PRIORITIES as int)->Some_0;
        assert(s1.ready[p].len() > 0);
        if q > p {
            assert(s1.ready[q] == s.ready[q]);
        }
    }
    assert(s.ready[p][0] < s.threads.len());
    let r = switched(s1, s1.current, sp).0;
    assert(r.ready[p] =~= seq![s.current]);
}

/// What is signaled in time wins over a timeout that comes at the same moment.
pub proof fn a_signal_wins_over_the_timeout(s: Sched, t: usize)
    requires
        s.threads[t as int].wait_type == WaitType::Any,
        first_signaled(s, t, 0) is Some,
    ensures
        evaluate(s, t) == Satisfy::Any(first_signaled(s, t, 0)->Some_0),
{
}

/// No semaphore counts past its limit, and a mutant has an owner exactly while it
/// cannot be acquired by others.
pub open spec fn counts_sound(objects: Seq<DispatcherObject>) -> bool {
    forall|x: int|
        0 <= x < objects.len() ==> {
            let o = #[trigger] objects[x];
            let n = o.header.signal_state;
            &&& o.header.object_type == DispatcherObjectType::Semaphore ==> n <= o.limit
            &&& o.header.object_type == DispatcherObjectType::Mutant ==> (o.owner is None <==> n > 0)
                && n <= 1
        }
}

proof fn lemma_counts_one(objects: Seq<DispatcherObject>, o: usize, t: usize)
    requires
        o < objects.len(),
        objects[o as int].header.signal_state > i32::MIN,
        counts_sound(objects),
    ensures
        counts_sound(consume_one(objects, o, t)),
{
    let r = consume_one(objects, o, t);
    assert forall|x: int| 0 <= x < r.len() implies {
        let q = #[trigger] r[x];
        let n = q.header.signal_state;
        &&& q.header.object_type == DispatcherObjectType::Semaphore ==> n <= q.limit
        &&& q.header.object_type == DispatcherObjectType::Mutant ==> (q.owner is None <==> n > 0)
            && n <= 1
    } by {
        assert(counts_sound(objects));
        let before = objects[x];
    }
}

proof fn lemma_counts_blocks(objects: Seq<DispatcherObject>, th: Kthread, t: usize, n: int)
    requires
        thread_sound(th, objects.len() as int),
        0 <= n <= th.wait_count,
        roomy(objects, 1),
        counts_sound(objects),
    ensures
        counts_sound(consume_blocks(objects, th, t, n)),
    decreases n,
{
    if n > 0 {
        lemma_counts_blocks(objects, th, t, n - 1);
        lemma_consume_blocks(objects, th, t, n - 1, 0);
        lemma_consume_len(objects, th, t, n - 1);
        let prev = consume_blocks(objects, th, t, n - 1);
        let o = th.wait_blocks.at(n - 1).object;
        assert(o < objects.len());
        assert(prev[o as int].header.signal_state > i32::MIN);
        lemma_counts_one(prev, o, t);
    }
}

proof fn lemma_counts_outcome(s: Sched, t: usize)
    requires
        sched_sound(s),
        t < s.threads.len(),
        roomy(s.objects, 1),
        counts_sound(s.objects),
    ensures
        counts_sound(outcome(s, t, evaluate(s, t)).0),
{
    let th = s.threads[t as int];
    assert(thread_sound(th, s.objects.len() as int));
    lemma_evaluate_index(s, t);
    match evaluate(s, t) {
        Satisfy::Any(i) => {
            let o = th.wait_blocks.at(i as int).object;
            assert(o < s.objects.len());
            assert(s.objects[o as int].header.signal_state - 3 > i32::MIN);
            lemma_counts_one(s.objects, o, t);
        },
        Satisfy::All => {
            lemma_counts_blocks(s.objects, th, t, th.wait_count as int);
        },
        _ => {},
    }
}

proof fn lemma_counts_woken(s: Sched, t: usize)
    requires
        sched_sound(s),
        t < s.threads.len(),
        roomy(s.objects, 1),
        counts_sound(s.objects),
    ensures
        counts_sound(woken(s, t).objects),
{
    lemma_counts_outcome(s, t);
    let th = s.threads[t as int];
    assert(thread_sound(th, s.objects.len() as int));
    lemma_evaluate_index(s, t);
    lemma_consume_len(s.objects, th, t, th.wait_count as int);
    let objects = outcome(s, t, evaluate(s, t)).0;
    let w = woken(s, t).objects;
    assert(w.len() == objects.len());
    assert forall|x: int| 0 <= x < w.len() implies (#[trigger] w[x]).header == objects[x].header
        && w[x].owner == objects[x].owner && w[x].limit == objects[x].limit by {}
    assert forall|x: int| 0 <= x < w.len() implies {
        let o = #[trigger] w[x];
        let n = o.header.signal_state;
        &&& o.header.object_type == DispatcherObjectType::Semaphore ==> n <= o.limit
        &&& o.header.object_type == DispatcherObjectType::Mutant ==> (o.owner is None <==> n > 0)
            && n <= 1
    } by {
        assert(w[x].header == objects[x].header);
    }
}

proof fn lemma_counts_wake_all(s: Sched, o: usize, n: int)
    requires
        sched_sound(s),
        roomy(s.objects, n),
        n >= 0,
        counts_sound(s.objects),
    ensures
        counts_sound(wake_waiters(s, o, n).0.objects),
    decreases n,
{
    lemma_first_satisfied(s, o, 0);
    match first_satisfied(s, o, 0) {
        None => {},
        Some(t) => {
            if n > 0 {
                let k = choose|k: int|
                    0 <= k < s.links.len() && #[trigger] s.links[k] == (WaitLink {
                        object: o,
                        thread: t,
                    });
                assert(s.links[k].thread == t);
                assert forall|x: int| 0 <= x < s.objects.len() implies (
                #[trigger] s.objects[x]).header.signal_state - 3 > i32::MIN by {
                    assert(s.objects[x].header.signal_state - 3 * n > i32::MIN);
                }
                lemma_counts_woken(s, t);
                lemma_woken(s, t);
                lemma_wake_shrinks(s, t, n - 1);
                lemma_counts_wake_all(woken(s, t), o, n - 1);
            }
        },
    }
}

/// A release keeps all counts sound, whoever it wakes: of a semaphore within its
/// limit, and of a mutant by its owner.
pub proof fn a_release_keeps_counts_sound(s: Sched, o: usize, adjustment: i32)
    requires
        sched_sound(s),
        o < s.objects.len(),
        counts_sound(s.objects),
        roomy(s.objects, s.links.len() as int),
    ensures
        ({
            let obj = s.objects[o as int];
            let sum = obj.header.signal_state + adjustment;
            obj.header.object_type == DispatcherObjectType::Semaphore && adjustment > 0 && sum
                <= obj.limit ==> counts_sound(
                wait_tested(with_signal(s, o, sum as i32), o).0.objects,
            )
        }),
        ({
            let obj = s.objects[o as int];
            obj.header.object_type == DispatcherObjectType::Mutant && obj.owner is Some
                ==> counts_sound(mutant_released(s, o).0.objects)
        }),
{
    let obj = s.objects[o as int];
    let n = s.links.len() as int;
    assert(obj.header.signal_state - 3 * n > i32::MIN);
    if obj.header.object_type == DispatcherObjectType::Semaphore && adjustment > 0
        && obj.header.signal_state + adjustment <= obj.limit {
        let a = with_signal(s, o, (obj.header.signal_state + adjustment) as i32);
        lemma_changed_object(s, a, o);
        lemma_counts_wake_all(a, o, n);
    }
    if obj.header.object_type == DispatcherObjectType::Mutant && obj.owner is Some {
        let m = one_more(obj.header.signal_state);
        assert(m == obj.header.signal_state + 1);
        let s1 = with_signal(s, o, m);
        if m > 0 {
            let a = Sched {
                objects: s1.objects.update(
                    o as int,
                    DispatcherObject { owner: None, ..s1.objects[o as int] },
                ),
                ..s1
            };
            lemma_changed_object(s, a, o);
            lemma_counts_wake_all(a, o, n);
        } else {
            assert forall|x: int| 0 <= x < s1.objects.len() && x != o implies (
            #[trigger] s1.objects[x]) == s.objects[x] by {}
        }
    }
}

/// Replacing one object by one whose count is sound and no smaller keeps the rest.
proof fn lemma_changed_object(s: Sched, a: Sched, o: usize)
    requires
        sched_sound(s),
        o < s.objects.len(),
        counts_sound(s.objects),
        roomy(s.objects, s.links.len() as int),
        a == (Sched { objects: a.objects, ..s }),
        a.objects.len() == s.objects.len(),
        forall|x: int| 0 <= x < s.objects.len() && x != o ==> #[trigger] a.objects[x] == s.objects[x],
        counts_sound(seq![a.objects[o as int]]),
        a.objects[o as int].header.signal_state >= s.objects[o as int].header.signal_state,
    ensures
        sched_sound(a),
        counts_sound(a.objects),
        roomy(a.objects, a.links.len() as int),
{
    assert(seq![a.objects[o as int]][0] == a.objects[o as int]);
    assert forall|t: int| 0 <= t < a.threads.len() implies #[trigger] thread_sound(
        a.threads[t],
        a.objects.len() as int,
    ) by {
        assert(thread_sound(s.threads[t], s.objects.len() as int));
    }
    assert forall|x: int| 0 <= x < a.objects.len() implies (
    #[trigger] a.objects[x]).header.signal_state - 3 * a.links.len() > i32::MIN by {
        assert(s.objects[x].header.signal_state - 3 * s.links.len() > i32::MIN);
    }
}

/// A wait keeps all counts sound, whether it is satisfied, fails or blocks.
pub proof fn a_wait_keeps_counts_sound(
    s: Sched,
    objects: Seq<usize>,
    wait_type: WaitType,
    timeout: Option<u64>,
    sp: Spaces,
)
    requires
        sched_sound(s),
        objects.len() <= THREAD_WAIT_OBJECTS,
        forall|i: int| 0 <= i < objects.len() ==> #[trigger] objects[i] < s.objects.len(),
        counts_sound(s.objects),
        roomy(s.objects, 1),
    ensures
        counts_sound(waited(s, objects, wait_type, timeout, sp).0.objects),
{
    let cur = s.current;
    let s1 = prepared(s, objects, wait_type);
    assert(thread_sound(s.threads[cur as int], s.objects.len() as int));
    lemma_prepared(s, objects, wait_type);
    if evaluate(s1, cur) != Satisfy::NotYet {
        lemma_counts_outcome(s1, cur);
    } else if timeout != Some(0u64) {
        let b = blocked(s1, objects, timeout);
        assert(thread_sound(s1.threads[cur as int], s1.objects.len() as int));
        assert forall|x: int| 0 <= x < b.objects.len() implies {
            let o = #[trigger] b.objects[x];
            let n = o.header.signal_state;
            &&& o.header.object_type == DispatcherObjectType::Semaphore ==> n <= o.limit
            &&& o.header.object_type == DispatcherObjectType::Mutant ==> (o.owner is None <==> n > 0)
                && n <= 1
        } by {
            if x != s1.threads[cur as int].timer {
                assert(b.objects[x] == s.objects[x]);
            }
        }
        assert(switched(b, cur, sp).0.objects == b.objects);
    }
}

/// A mutant that a thread owns can be acquired by no other.
pub proof fn a_mutant_excludes_others(objects: Seq<DispatcherObject>, o: usize, owner: usize, other: usize)
    requires
        counts_sound(objects),
        o < objects.len(),
        objects[o as int].header.object_type == DispatcherObjectType::Mutant,
        objects[o as int].owner == Some(owner),
        other != owner,
    ensures
        !signaled_for(objects, other, o),
        signaled_for(objects, owner, o),
{
}

} // verus!
