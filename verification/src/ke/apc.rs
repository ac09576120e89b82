//! Asynchronous procedure calls to a thread.
//!
//! A call is queued to a thread and made in that thread's context at `APC_LEVEL`
//! the next time it passes the dispatch interrupt: first its kernel routine,
//! which may change or free it, then its normal routine. Delivery does not nest
//! on one processor.
use crate::ke::irql::{
    ke_get_current_irql, ke_lower_irql, ke_raise_irql, Kirql, Processor, APC_LEVEL,
};
use crate::ke::smp::MAX_CPUS;
use vstd::prelude::*;

verus! {

/// An asynchronous call. Routines are addresses.
#[derive(Debug, Clone, Copy, PartialEq, Eq)]
pub struct Kapc {
    /// On a thread's queue.
    pub inserted: bool,
    pub kernel_routine: Option<u64>,
    pub normal_routine: Option<u64>,
    pub normal_context: u64,
    pub arg1: u64,
    pub arg2: u64,
    /// The thread it is for.
    pub thread: Option<usize>,
}

impl Kapc {
    /// A call that is yet to be prepared.
    pub fn new() -> (a: Self)
        ensures
            a == (Kapc {
                inserted: false,
                kernel_routine: None,
                normal_routine: None,
                normal_context: 0,
                arg1: 0,
                arg2: 0,
                thread: None,
            }),
    {
        Kapc {
            inserted: false,
            kernel_routine: None,
            normal_routine: None,
            normal_context: 0,
            arg1: 0,
            arg2: 0,
            thread: None,
        }
    }
}

/// The payload of a call.
#[derive(Debug, Clone, Copy, PartialEq, Eq, Structural)]
pub struct NormalCall {
    pub routine: u64,
    pub context: u64,
    pub arg1: u64,
    pub arg2: u64,
}

/// The calls and their queue. A thread's queue is the pending calls for it,
/// oldest first.
pub struct ApcQueue {
    pub apcs: Vec<Kapc>,
    pub pending: Vec<usize>,
}

/// The abstract queue.
#[verifier::ext_equal]
pub struct Asynchronous {
    pub apcs: Seq<Kapc>,
    pub pending: Seq<usize>,
}

impl View for ApcQueue {
    type V = Asynchronous;

    open spec fn view(&self) -> Asynchronous {
        Asynchronous { apcs: self.apcs@, pending: self.pending@ }
    }
}

/// A call is marked as queued exactly when it is pending, and it is pending once.
pub open spec fn apcs_sound(q: Asynchronous) -> bool {
    &&& q.apcs.len() <= usize::MAX
    &&& forall|i: int| 0 <= i < q.pending.len() ==> #[trigger] q.pending[i] < q.apcs.len()
    &&& forall|i: int, j: int|
        0 <= i < j < q.pending.len() ==> #[trigger] q.pending[i] != #[trigger] q.pending[j]
    &&& forall|a: int|
        0 <= a < q.apcs.len() ==> (#[trigger] q.apcs[a]).inserted == q.pending.contains(a as usize)
}

/// The place of the oldest pending call for a thread, from `i` on.
pub open spec fn first_for(q: Asynchronous, thread: usize, i: int) -> Option<int>
    decreases q.pending.len() - i,
{
    if i < 0 || i >= q.pending.len() {
        None
    } else if q.apcs[q.pending[i] as int].thread == Some(thread) {
        Some(i)
    } else {
        first_for(q, thread, i + 1)
    }
}

/// The queue after a request, and whether the call was queued: not without a
/// target, not for another thread than it was prepared for, not twice.
pub open spec fn inserted_apc(q: Asynchronous, apc: usize, thread: Option<usize>) -> (
    Asynchronous,
    bool,
) {
    let a = q.apcs[apc as int];
    if thread is None || a.thread != thread || a.inserted {
        (q, false)
    } else {
        (
            Asynchronous {
                apcs: q.apcs.update(apc as int, Kapc { inserted: true, ..a }),
                pending: q.pending.push(apc),
            },
            true,
        )
    }
}

/// The queue without the oldest call for a thread, and that call.
pub open spec fn taken_apc(q: Asynchronous, thread: usize) -> (Asynchronous, Option<usize>) {
    match first_for(q, thread, 0) {
        None => (q, None),
        Some(i) => {
            let apc = q.pending[i];
            (
                Asynchronous {
                    apcs: q.apcs.update(
                        apc as int,
                        Kapc { inserted: false, ..q.apcs[apc as int] },
                    ),
                    pending: q.pending.remove(i),
                },
                Some(apc),
            )
        },
    }
}

proof fn lemma_first_for(q: Asynchronous, thread: usize, i: int)
    requires
        0 <= i,
    ensures
        match first_for(q, thread, i) {
            Some(k) => i <= k < q.pending.len() && q.apcs[q.pending[k] as int].thread == Some(
                thread,
            ) && forall|j: int|
                i <= j < k ==> q.apcs[(#[trigger] q.pending[j]) as int].thread != Some(thread),
            None => forall|j: int|
                i <= j < q.pending.len() ==> q.apcs[(#[trigger] q.pending[j]) as int].thread
                    != Some(thread),
        },
    decreases q.pending.len() - i,
{
    if i < q.pending.len() && q.apcs[q.pending[i] as int].thread != Some(thread) {
        lemma_first_for(q, thread, i + 1);
    }
}

proof fn lemma_inserted(q: Asynchronous, apc: usize, thread: Option<usize>)
    requires
        apcs_sound(q),
        apc < q.apcs.len(),
    ensures
        apcs_sound(inserted_apc(q, apc, thread).0),
{
    let r = inserted_apc(q, apc, thread).0;
    if inserted_apc(q, apc, thread).1 {
        assert(!q.pending.contains(apc));
        assert forall|i: int, j: int| 0 <= i < j < r.pending.len() implies #[trigger] r.pending[i]
            != #[trigger] r.pending[j] by {
            if j == q.pending.len() {
                assert(q.pending.contains(q.pending[i]));
            }
        }
        assert(r.pending[q.pending.len() as int] == apc);
        assert forall|k: int| 0 <= k < r.apcs.len() implies (#[trigger] r.apcs[k]).inserted
            == r.pending.contains(k as usize) by {
            if k == apc {
                assert(r.pending.contains(apc));
            } else {
                assert(q.apcs[k].inserted == q.pending.contains(k as usize));
                if q.pending.contains(k as usize) {
                    let i = choose|i: int| 0 <= i < q.pending.len() && q.pending[i] == k as usize;
                    assert(r.pending[i] == k as usize);
                }
                if r.pending.contains(k as usize) {
                    let i = choose|i: int| 0 <= i < r.pending.len() && r.pending[i] == k as usize;
                    assert(q.pending[i] == k as usize);
                }
            }
        }
    }
}

proof fn lemma_taken(q: Asynchronous, thread: usize)
    requires
        apcs_sound(q),
    ensures
        apcs_sound(taken_apc(q, thread).0),
{
    lemma_first_for(q, thread, 0);
    match first_for(q, thread, 0) {
        None => {},
        Some(at) => {
            let r = taken_apc(q, thread).0;
            let apc = q.pending[at];
            assert forall|i: int| 0 <= i < r.pending.len() implies #[trigger] r.pending[i]
                < r.apcs.len() && (r.pending[i] == if i < at {
                q.pending[i]
            } else {
                q.pending[i + 1]
            }) by {}
            assert forall|i: int, j: int| 0 <= i < j < r.pending.len() implies #[trigger]
                r.pending[i] != #[trigger] r.pending[j] by {}
            assert forall|k: int| 0 <= k < r.apcs.len() implies (#[trigger] r.apcs[k]).inserted
                == r.pending.contains(k as usize) by {
                assert(q.apcs[k].inserted == q.pending.contains(k as usize));
                if r.pending.contains(k as usize) {
                    let i = choose|i: int| 0 <= i < r.pending.len() && r.pending[i] == k as usize;
                    if i < at {
                        assert(q.pending[i] != q.pending[at]);
                    } else {
                        assert(q.pending[at] != q.pending[i + 1]);
                    }
                }
                if k != apc && q.pending.contains(k as usize) {
                    let i = choose|i: int| 0 <= i < q.pending.len() && q.pending[i] == k as usize;
                    if i < at {
                        assert(r.pending[i] == k as usize);
                    } else {
                        assert(r.pending[i - 1] == k as usize);
                    }
                }
            }
        },
    }
}

impl ApcQueue {
    pub open spec fn wf(&self) -> bool {
        apcs_sound(self@)
    }

    /// No calls.
    pub fn empty() -> (q: Self)
        ensures
            q.wf(),
            q@ == (Asynchronous { apcs: Seq::empty(), pending: Seq::empty() }),
    {
        let q = ApcQueue { apcs: Vec::new(), pending: Vec::new() };
        assert(q@ =~= Asynchronous { apcs: Seq::empty(), pending: Seq::empty() });
        q
    }

    /// Make a call known, yet to be prepared.
    pub fn add(&mut self) -> (id: usize)
        requires
            old(self).wf(),
        ensures
            final(self).wf(),
            id == old(self)@.apcs.len(),
            final(self)@.pending == old(self)@.pending,
            final(self)@.apcs.len() == id + 1,
            final(self)@.apcs[id as int] == (Kapc {
                inserted: false,
                kernel_routine: None,
                normal_routine: None,
                normal_context: 0,
                arg1: 0,
                arg2: 0,
                thread: None,
            }),
            forall|k: int|
                0 <= k < id ==> #[trigger] final(self)@.apcs[k] == old(self)@.apcs[k],
    {
        let ghost q = self@;
        let id: usize = self.apcs.len();
        self.apcs.push(Kapc::new());
        let n: usize = self.apcs.len();
        proof {
            assert forall|k: int| 0 <= k < self@.apcs.len() implies (#[trigger] self@.apcs[k]).inserted
                == self@.pending.contains(k as usize) by {
                if k < q.apcs.len() {
                    assert(q.apcs[k].inserted == q.pending.contains(k as usize));
                } else if q.pending.contains(k as usize) {
                    let i = choose|i: int| 0 <= i < q.pending.len() && q.pending[i] == k as usize;
                    assert(q.pending[i] < q.apcs.len());
                }
            }
        }
        id
    }
}

/// `KeInitializeApc`: prepare a call for a thread. It must not be queued.
pub fn ke_initialize_apc(
    q: &mut ApcQueue,
    apc: usize,
    thread: Option<usize>,
    kernel_routine: Option<u64>,
    normal_routine: Option<u64>,
    normal_context: u64,
    arg1: u64,
    arg2: u64,
)
    requires
        old(q).wf(),
        apc < old(q)@.apcs.len(),
        !old(q)@.apcs[apc as int].inserted,
    ensures
        final(q).wf(),
        final(q)@ == (Asynchronous {
            apcs: old(q)@.apcs.update(
                apc as int,
                Kapc {
                    inserted: false,
                    kernel_routine,
                    normal_routine,
                    normal_context,
                    arg1,
                    arg2,
                    thread,
                },
            ),
            ..old(q)@
        }),
{
    q.apcs.set(
        apc,
        Kapc { inserted: false, kernel_routine, normal_routine, normal_context, arg1, arg2, thread },
    );
}

/// `KeInsertQueueApc`: queue a prepared call to its thread.
pub fn ke_insert_queue_apc(q: &mut ApcQueue, apc: usize, thread: Option<usize>) -> (ok: bool)
    requires
        old(q).wf(),
        apc < old(q)@.apcs.len(),
    ensures
        final(q).wf(),
        (final(q)@, ok) == inserted_apc(old(q)@, apc, thread),
{
    proof {
        lemma_inserted(q@, apc, thread);
    }
    let mut a: Kapc = q.apcs[apc];
    let same: bool = match (thread, a.thread) {
        (Some(x), Some(y)) => x == y,
        _ => false,
    };
    if !same || a.inserted {
        return false;
    }
    a.inserted = true;
    q.apcs.set(apc, a);
    q.pending.push(apc);
    true
}

/// The level after moving to `APC_LEVEL` from either side.
fn to_level(cpu: &mut Processor, level: Kirql)
    ensures
        *final(cpu) == (Processor { irql: level, ..*old(cpu) }),
{
    let now: Kirql = ke_get_current_irql(cpu);
    if now < level {
        let _ = ke_raise_irql(cpu, level);
    } else if now > level {
        ke_lower_irql(cpu, level);
    }
}

/// Whether a processor is delivering, by processor number.
pub open spec fn may_deliver(delivering: Seq<bool>, number: u32) -> bool {
    number < delivering.len() && !delivering[number as int]
}

/// Begin delivery to the current thread on processor `number`: claim the
/// processor's guard and move to `APC_LEVEL`. Returns the level to go back to,
/// none when the processor is delivering already or has no guard.
pub fn begin_delivery(delivering: &mut Vec<bool>, cpu: &mut Processor, number: u32) -> (r: Option<
    Kirql,
>)
    requires
        old(delivering)@.len() == MAX_CPUS,
    ensures
        match r {
            Some(entry) => {
                &&& may_deliver(old(delivering)@, number)
                &&& entry == old(cpu).irql
                &&& final(delivering)@ == old(delivering)@.update(number as int, true)
                &&& *final(cpu) == (Processor { irql: APC_LEVEL, ..*old(cpu) })
            },
            None => {
                &&& !may_deliver(old(delivering)@, number)
                &&& final(delivering)@ == old(delivering)@
                &&& *final(cpu) == *old(cpu)
            },
        },
{
    if number as usize >= delivering.len() || delivering[number as usize] {
        return None;
    }
    delivering.set(number as usize, true);
    let entry: Kirql = ke_get_current_irql(cpu);
    to_level(cpu, APC_LEVEL);
    Some(entry)
}

/// One turn of `KiDeliverApcs`: take the oldest call for `thread` off its queue.
/// Its kernel routine, if any, is to be called with it, and then what
/// [`normal_call`] gives.
pub fn ki_deliver_apcs(q: &mut ApcQueue, thread: usize) -> (r: Option<(usize, Option<u64>)>)
    requires
        old(q).wf(),
    ensures
        final(q).wf(),
        ({
            let (after, apc) = taken_apc(old(q)@, thread);
            &&& final(q)@ == after
            &&& r == match apc {
                Some(a) => Some((a, old(q)@.apcs[a as int].kernel_routine)),
                None => None,
            }
        }),
{
    proof {
        lemma_taken(q@, thread);
        lemma_first_for(q@, thread, 0);
    }
    let ghost before = q@;
    let mut i: usize = 0;
    while i < q.pending.len()
        invariant
            q@ == before,
            before == old(q)@,
            apcs_sound(before),
            apcs_sound(taken_apc(before, thread).0),
            i <= before.pending.len(),
            first_for(before, thread, 0) == first_for(before, thread, i as int),
        decreases before.pending.len() - i,
    {
        let id: usize = q.pending[i];
        let mut a: Kapc = q.apcs[id];
        let mine: bool = match a.thread {
            Some(t) => t == thread,
            None => false,
        };
        if mine {
            let _ = q.pending.remove(i);
            a.inserted = false;
            q.apcs.set(id, a);
            return Some((id, a.kernel_routine));
        }
        i = i + 1;
    }
    None
}

/// The payload of a call, as it stands after its kernel routine.
pub fn normal_call(q: &ApcQueue, apc: usize) -> (r: Option<NormalCall>)
    requires
        apc < q@.apcs.len(),
    ensures
        ({
            let a = q@.apcs[apc as int];
            r == match a.normal_routine {
                Some(routine) => Some(
                    NormalCall {
                        routine,
                        context: a.normal_context,
                        arg1: a.arg1,
                        arg2: a.arg2,
                    },
                ),
                None => None,
            }
        }),
{
    let a: Kapc = q.apcs[apc];
    match a.normal_routine {
        Some(routine) => Some(
            NormalCall { routine, context: a.normal_context, arg1: a.arg1, arg2: a.arg2 },
        ),
        None => None,
    }
}

/// End delivery: go back to the level before and free the guard.
pub fn end_delivery(delivering: &mut Vec<bool>, cpu: &mut Processor, number: u32, entry: Kirql)
    requires
        number < old(delivering)@.len(),
    ensures
        final(delivering)@ == old(delivering)@.update(number as int, false),
        *final(cpu) == (Processor { irql: entry, ..*old(cpu) }),
{
    to_level(cpu, entry);
    delivering.set(number as usize, false);
}

/// A thread gets its calls in the order they were queued, whatever is pending for
/// others; a queued call is not queued again until it has been taken.
pub proof fn a_thread_gets_its_calls_in_order(
    q: Asynchronous,
    a: usize,
    b: usize,
    thread: usize,
)
    requires
        apcs_sound(q),
        a < q.apcs.len(),
        b < q.apcs.len(),
        a != b,
        q.apcs[a as int].thread == Some(thread),
        q.apcs[b as int].thread == Some(thread),
        !q.apcs[a as int].inserted,
        !q.apcs[b as int].inserted,
        first_for(q, thread, 0) is None,
    ensures
        ({
            let (q1, x) = inserted_apc(q, a, Some(thread));
            let (q2, twice) = inserted_apc(q1, a, Some(thread));
            let (q3, y) = inserted_apc(q2, b, Some(thread));
            let (r1, first) = taken_apc(q3, thread);
            let (r2, second) = taken_apc(r1, thread);
            &&& x && !twice && y
            &&& first == Some(a)
            &&& second == Some(b)
        }),
{
    let n = q.pending.len() as int;
    lemma_first_for(q, thread, 0);
    let q1 = inserted_apc(q, a, Some(thread)).0;
    let q3 = inserted_apc(q1, b, Some(thread)).0;
    assert(q3.pending =~= q.pending.push(a).push(b));
    assert forall|j: int| 0 <= j < n implies q3.apcs[(#[trigger] q3.pending[j]) as int].thread
        != Some(thread) by {
        assert(q3.pending[j] == q.pending[j]);
        assert(q.apcs[q.pending[j] as int].thread != Some(thread));
    }
    lemma_first_for(q3, thread, 0);
    assert(q3.pending[n] == a && q3.pending[n + 1] == b);
    assert(first_for(q3, thread, 0) == Some(n));
    let r1 = taken_apc(q3, thread).0;
    assert(r1.pending =~= q.pending.push(b));
    assert forall|j: int| 0 <= j < n implies r1.apcs[(#[trigger] r1.pending[j]) as int].thread
        != Some(thread) by {
        assert(r1.pending[j] == q.pending[j]);
        assert(q.apcs[q.pending[j] as int].thread != Some(thread));
    }
    lemma_first_for(r1, thread, 0);
    assert(r1.pending[n] == b);
}

/// A call is queued for the thread it was made for, once, behind those that wait already.
pub proof fn a_call_is_queued_for_its_thread(q: Asynchronous, apc: usize, thread: usize)
    requires
        apc < q.apcs.len(),
    ensures
        inserted_apc(q, apc, None) == (q, false),
        q.apcs[apc as int].thread != Some(thread) ==> inserted_apc(q, apc, Some(thread)) == (
            q,
            false,
        ),
        q.apcs[apc as int].inserted ==> inserted_apc(q, apc, Some(thread)) == (q, false),
        q.apcs[apc as int].thread == Some(thread) && !q.apcs[apc as int].inserted ==> {
            let (after, ok) = inserted_apc(q, apc, Some(thread));
            &&& ok
            &&& after.pending == q.pending.push(apc)
            &&& after.apcs[apc as int].inserted
            &&& !inserted_apc(after, apc, Some(thread)).1
        },
{
}

/// A thread takes the oldest call that is its own; the calls of other threads wait on in
/// their order.
pub proof fn a_thread_takes_its_oldest_call(q: Asynchronous, thread: usize, k: int)
    requires
        apcs_sound(q),
        0 <= k < q.pending.len(),
        q.apcs[q.pending[k] as int].thread == Some(thread),
        forall|j: int| 0 <= j < k ==> q.apcs[#[trigger] q.pending[j] as int].thread != Some(thread),
    ensures
        taken_apc(q, thread).1 == Some(q.pending[k]),
        taken_apc(q, thread).0.pending == q.pending.remove(k),
        !taken_apc(q, thread).0.apcs[q.pending[k] as int].inserted,
{
    lemma_oldest_for(q, thread, k, 0);
}

proof fn lemma_oldest_for(q: Asynchronous, thread: usize, k: int, i: int)
    requires
        0 <= i <= k < q.pending.len(),
        q.apcs[q.pending[k] as int].thread == Some(thread),
        forall|j: int| i <= j < k ==> q.apcs[#[trigger] q.pending[j] as int].thread != Some(thread),
    ensures
        first_for(q, thread, i) == Some(k),
    decreases k - i,
{
    if i < k {
        assert(q.apcs[q.pending[i] as int].thread != Some(thread));
        lemma_oldest_for(q, thread, k, i + 1);
    }
}

/// A processor delivers calls once at a time.
pub proof fn delivery_is_not_nested(delivering: Seq<bool>, number: u32)
    requires
        number < delivering.len(),
    ensures
        may_deliver(delivering.update(number as int, false), number),
        !may_deliver(delivering.update(number as int, true), number),
        !may_deliver(delivering, delivering.len() as u32) || delivering.len() > u32::MAX,
{
}

} // verus!
