//! Deferred procedure calls.
//!
//! An interrupt routine queues a call and the processor makes it later at
//! `DISPATCH_LEVEL`. Calls leave the queue in the order they came, and one that
//! is queued already is not queued again. The queue is touched with interrupts
//! masked; the calls are made without it, so a routine may queue more.
use vstd::prelude::*;

verus! {

/// A deferred call. Routines and arguments are addresses.
#[derive(Debug, Clone, Copy, PartialEq, Eq)]
pub struct Kdpc {
    /// In-kernel routine.
    pub routine: Option<u64>,
    /// Driver routine; it takes precedence.
    pub win64_routine: Option<u64>,
    pub context: u64,
    /// System arguments of a driver routine.
    pub system_arg1: u64,
    pub system_arg2: u64,
    /// On the queue.
    pub inserted: bool,
}

impl Kdpc {
    /// `KeInitializeDpc` for an in-kernel routine.
    pub fn new(routine: u64, context: u64) -> (d: Self)
        ensures
            d == (Kdpc {
                routine: Some(routine),
                win64_routine: None,
                context,
                system_arg1: 0,
                system_arg2: 0,
                inserted: false,
            }),
    {
        Kdpc {
            routine: Some(routine),
            win64_routine: None,
            context,
            system_arg1: 0,
            system_arg2: 0,
            inserted: false,
        }
    }

    /// `KeInitializeDpc` for a driver routine.
    pub fn new_win64(routine: u64, context: u64) -> (d: Self)
        ensures
            d == (Kdpc {
                routine: None,
                win64_routine: Some(routine),
                context,
                system_arg1: 0,
                system_arg2: 0,
                inserted: false,
            }),
    {
        Kdpc {
            routine: None,
            win64_routine: Some(routine),
            context,
            system_arg1: 0,
            system_arg2: 0,
            inserted: false,
        }
    }
}

/// A call to make, with the deferred call it comes from.
#[derive(Debug, Clone, Copy, PartialEq, Eq)]
pub enum DpcCall {
    Driver { dpc: usize, routine: u64, context: u64, arg1: u64, arg2: u64 },
    Kernel { dpc: usize, routine: u64, context: u64 },
    /// It has no routine.
    Nothing { dpc: usize },
}

/// The call that a deferred call makes.
pub open spec fn call_of(dpc: usize, d: Kdpc) -> DpcCall {
    match d.win64_routine {
        Some(routine) => DpcCall::Driver {
            dpc,
            routine,
            context: d.context,
            arg1: d.system_arg1,
            arg2: d.system_arg2,
        },
        None => match d.routine {
            Some(routine) => DpcCall::Kernel { dpc, routine, context: d.context },
            None => DpcCall::Nothing { dpc },
        },
    }
}

/// The deferred calls of a processor and its queue.
pub struct DpcQueue {
    pub dpcs: Vec<Kdpc>,
    /// Queued calls, oldest first.
    pub queue: Vec<usize>,
}

/// The abstract queue.
#[verifier::ext_equal]
pub struct Deferred {
    pub dpcs: Seq<Kdpc>,
    pub queue: Seq<usize>,
}

impl View for DpcQueue {
    type V = Deferred;

    open spec fn view(&self) -> Deferred {
        Deferred { dpcs: self.dpcs@, queue: self.queue@ }
    }
}

/// A call is marked as queued exactly when it is on the queue, and it is there
/// once.
pub open spec fn deferred_sound(q: Deferred) -> bool {
    &&& q.dpcs.len() <= usize::MAX
    &&& forall|i: int| 0 <= i < q.queue.len() ==> #[trigger] q.queue[i] < q.dpcs.len()
    &&& forall|i: int, j: int|
        0 <= i < j < q.queue.len() ==> #[trigger] q.queue[i] != #[trigger] q.queue[j]
    &&& forall|d: int|
        0 <= d < q.dpcs.len() ==> (#[trigger] q.dpcs[d]).inserted == q.queue.contains(d as usize)
}

/// The queue after a request for call `d`, and whether it was queued.
pub open spec fn queued(q: Deferred, d: usize) -> (Deferred, bool) {
    let k = q.dpcs[d as int];
    if k.inserted {
        (q, false)
    } else {
        (
            Deferred {
                dpcs: q.dpcs.update(d as int, Kdpc { inserted: true, ..k }),
                queue: q.queue.push(d),
            },
            true,
        )
    }
}

/// The queue without its oldest call, and the call to make.
pub open spec fn retired(q: Deferred) -> (Deferred, Option<DpcCall>) {
    if q.queue.len() == 0 {
        (q, None)
    } else {
        let d = q.queue[0];
        let k = q.dpcs[d as int];
        (
            Deferred {
                dpcs: q.dpcs.update(d as int, Kdpc { inserted: false, ..k }),
                queue: q.queue.skip(1),
            },
            Some(call_of(d, k)),
        )
    }
}

proof fn lemma_queued(q: Deferred, d: usize)
    requires
        deferred_sound(q),
        d < q.dpcs.len(),
    ensures
        deferred_sound(queued(q, d).0),
{
    let r = queued(q, d).0;
    if !q.dpcs[d as int].inserted {
        assert(!q.queue.contains(d));
        assert forall|i: int, j: int| 0 <= i < j < r.queue.len() implies #[trigger] r.queue[i]
            != #[trigger] r.queue[j] by {
            if j == q.queue.len() {
                assert(q.queue.contains(q.queue[i]));
            }
        }
        assert(r.queue[q.queue.len() as int] == d);
        assert forall|k: int| 0 <= k < r.dpcs.len() implies (#[trigger] r.dpcs[k]).inserted
            == r.queue.contains(k as usize) by {
            if k == d {
                assert(r.queue.contains(d));
            } else {
                assert(q.dpcs[k].inserted == q.queue.contains(k as usize));
                if q.queue.contains(k as usize) {
                    let i = choose|i: int| 0 <= i < q.queue.len() && q.queue[i] == k as usize;
                    assert(r.queue[i] == k as usize);
                }
                if r.queue.contains(k as usize) {
                    let i = choose|i: int| 0 <= i < r.queue.len() && r.queue[i] == k as usize;
                    assert(q.queue[i] == k as usize);
                }
            }
        }
    }
}

proof fn lemma_retired(q: Deferred)
    requires
        deferred_sound(q),
    ensures
        deferred_sound(retired(q).0),
{
    let r = retired(q).0;
    if q.queue.len() > 0 {
        let d = q.queue[0];
        assert forall|i: int| 0 <= i < r.queue.len() implies #[trigger] r.queue[i]
            < r.dpcs.len() by {
            assert(q.queue[i + 1] < q.dpcs.len());
        }
        assert forall|i: int, j: int| 0 <= i < j < r.queue.len() implies #[trigger] r.queue[i]
            != #[trigger] r.queue[j] by {
            assert(q.queue[i + 1] != q.queue[j + 1]);
        }
        assert forall|k: int| 0 <= k < r.dpcs.len() implies (#[trigger] r.dpcs[k]).inserted
            == r.queue.contains(k as usize) by {
            assert(q.dpcs[k].inserted == q.queue.contains(k as usize));
            if r.queue.contains(k as usize) {
                let i = choose|i: int| 0 <= i < r.queue.len() && r.queue[i] == k as usize;
                assert(q.queue[i + 1] == k as usize);
                assert(q.queue[0] != q.queue[i + 1]);
            }
            if k != d && q.queue.contains(k as usize) {
                let i = choose|i: int| 0 <= i < q.queue.len() && q.queue[i] == k as usize;
                assert(r.queue[i - 1] == k as usize);
            }
        }
    }
}

impl DpcQueue {
    pub open spec fn wf(&self) -> bool {
        deferred_sound(self@)
    }

    /// No deferred calls.
    pub fn new() -> (q: Self)
        ensures
            q.wf(),
            q@ == (Deferred { dpcs: Seq::empty(), queue: Seq::empty() }),
    {
        let q = DpcQueue { dpcs: Vec::new(), queue: Vec::new() };
        assert(q@ =~= Deferred { dpcs: Seq::empty(), queue: Seq::empty() });
        q
    }

    /// Make a deferred call known. It is not queued.
    pub fn add(&mut self, d: Kdpc) -> (id: usize)
        requires
            old(self).wf(),
            !d.inserted,
        ensures
            final(self).wf(),
            id == old(self)@.dpcs.len(),
            final(self)@ == (Deferred { dpcs: old(self)@.dpcs.push(d), ..old(self)@ }),
    {
        let ghost q = self@;
        let id: usize = self.dpcs.len();
        self.dpcs.push(d);
        let n: usize = self.dpcs.len();
        proof {
            assert forall|k: int| 0 <= k < self@.dpcs.len() implies (#[trigger] self@.dpcs[k]).inserted
                == self@.queue.contains(k as usize) by {
                if k < q.dpcs.len() {
                    assert(q.dpcs[k].inserted == q.queue.contains(k as usize));
                } else if q.queue.contains(k as usize) {
                    let i = choose|i: int| 0 <= i < q.queue.len() && q.queue[i] == k as usize;
                    assert(q.queue[i] < q.dpcs.len());
                }
            }
        }
        id
    }
}

/// `KeInsertQueueDpc`: queue a call unless it is queued already. When it returns
/// true a dispatch interrupt is to be requested.
pub fn ke_insert_queue_dpc(q: &mut DpcQueue, d: usize) -> (inserted: bool)
    requires
        old(q).wf(),
        d < old(q)@.dpcs.len(),
    ensures
        final(q).wf(),
        (final(q)@, inserted) == queued(old(q)@, d),
{
    proof {
        lemma_queued(q@, d);
    }
    let mut k: Kdpc = q.dpcs[d];
    if k.inserted {
        return false;
    }
    k.inserted = true;
    q.dpcs.set(d, k);
    q.queue.push(d);
    true
}

/// One turn of draining the queue: the next call to make, none when it is empty.
pub fn ki_retire_dpcs(q: &mut DpcQueue) -> (call: Option<DpcCall>)
    requires
        old(q).wf(),
    ensures
        final(q).wf(),
        (final(q)@, call) == retired(old(q)@),
{
    proof {
        lemma_retired(q@);
    }
    if q.queue.len() == 0 {
        return None;
    }
    let ghost before = q@;
    let d: usize = q.queue.remove(0);
    let mut k: Kdpc = q.dpcs[d];
    let call: DpcCall = match k.win64_routine {
        Some(routine) => DpcCall::Driver {
            dpc: d,
            routine,
            context: k.context,
            arg1: k.system_arg1,
            arg2: k.system_arg2,
        },
        None => match k.routine {
            Some(routine) => DpcCall::Kernel { dpc: d, routine, context: k.context },
            None => DpcCall::Nothing { dpc: d },
        },
    };
    k.inserted = false;
    q.dpcs.set(d, k);
    assert(q@.queue =~= before.queue.skip(1));
    Some(call)
}

/// Two calls queued one after the other are made in that order, each once; and a
/// call can be queued again as soon as it has left the queue.
pub proof fn deferred_calls_run_once_in_order(q: Deferred, a: usize, b: usize)
    requires
        deferred_sound(q),
        q.queue.len() == 0,
        a < q.dpcs.len(),
        b < q.dpcs.len(),
        a != b,
    ensures
        ({
            let (q1, first) = queued(q, a);
            let (q2, again) = queued(q1, a);
            let (q3, second) = queued(q2, b);
            let (r1, x) = retired(q3);
            let (r2, y) = retired(r1);
            &&& first && !again && second
            &&& x == Some(call_of(a, q3.dpcs[a as int]))
            &&& y == Some(call_of(b, q3.dpcs[b as int]))
            &&& retired(r2).1 is None
            &&& queued(r1, a).1
        }),
{
    assert(!q.dpcs[a as int].inserted) by {
        assert(q.dpcs[a as int].inserted == q.queue.contains(a));
    }
    assert(!q.dpcs[b as int].inserted) by {
        assert(q.dpcs[b as int].inserted == q.queue.contains(b));
    }
    let q3 = queued(queued(q, a).0, b).0;
    assert(q3.queue =~= seq![a, b]);
    let r1 = retired(q3).0;
    assert(r1.queue =~= seq![b]);
    assert(retired(r1).0.queue =~= Seq::<usize>::empty());
}

/// A driver's routine is called with the context and both arguments of its call, a routine of
/// the kernel with the context.
pub proof fn a_call_has_its_arguments(id: usize, d: Kdpc, routine: u64)
    ensures
        d.win64_routine == Some(routine) ==> call_of(id, d) == (DpcCall::Driver {
            dpc: id,
            routine,
            context: d.context,
            arg1: d.system_arg1,
            arg2: d.system_arg2,
        }),
        d.win64_routine is None && d.routine == Some(routine) ==> call_of(id, d) == (
        DpcCall::Kernel { dpc: id, routine, context: d.context }),
        d.win64_routine is None && d.routine is None ==> call_of(id, d) == (DpcCall::Nothing {
            dpc: id,
        }),
{
}

/// A call that waits already is not queued again; once it has run it can be.
pub proof fn a_call_waits_once(q: Deferred, d: usize)
    requires
        deferred_sound(q),
        d < q.dpcs.len(),
    ensures
        q.dpcs[d as int].inserted ==> queued(q, d) == (q, false),
        !q.dpcs[d as int].inserted ==> queued(q, d).1 && queued(q, d).0.queue == q.queue.push(d)
            && !queued(queued(q, d).0, d).1,
        q.queue.len() > 0 ==> retired(q).0.queue == q.queue.skip(1) && !retired(
            q,
        ).0.dpcs[q.queue[0] as int].inserted,
        q.queue.len() == 0 ==> retired(q) == (q, None::<DpcCall>),
{
}

} // verus!
