//! The ready queues: one first-in first-out queue per priority, and a summary
//! with one bit per queue that is not empty.
use vstd::prelude::*;
use vstd::std_specs::bits::axiom_u32_leading_zeros;

verus! {

/// Number of priorities.
pub const PRIORITIES: usize = 32;

/// The queues.
pub struct ReadyQueues {
    pub queues: Vec<Vec<usize>>,
    /// Bit `p` is set exactly when queue `p` is not empty.
    pub summary: u32,
}

/// Bit `p` of a summary.
pub open spec fn summary_bit(s: u32, p: u32) -> bool {
    (s >> p) & 1u32 == 1u32
}

/// The highest priority below `below` with a ready thread.
pub open spec fn highest_ready(q: Seq<Seq<usize>>, below: int) -> Option<int>
    decreases below,
{
    if below <= 0 {
        None
    } else if q[below - 1].len() > 0 {
        Some(below - 1)
    } else {
        highest_ready(q, below - 1)
    }
}

/// The thread that runs next and the queues without it: the oldest of the
/// highest priority.
pub open spec fn next_ready(q: Seq<Seq<usize>>) -> (Seq<Seq<usize>>, Option<usize>) {
    match highest_ready(q, PRIORITIES as int) {
        Some(p) => (q.update(p, q[p].skip(1)), Some(q[p][0])),
        None => (q, None),
    }
}

/// The queues with a thread added at the end of its priority's queue.
pub open spec fn with_ready(q: Seq<Seq<usize>>, t: usize, p: int) -> Seq<Seq<usize>> {
    q.update(p, q[p].push(t))
}

proof fn lemma_bits(s: u32, p: u32, q: u32)
    by (bit_vector)
    requires
        p < 32,
        q < 32,
    ensures
        ((s | (1u32 << p)) >> q) & 1u32 == if p == q {
            1u32
        } else {
            (s >> q) & 1u32
        },
        ((s & !(1u32 << p)) >> q) & 1u32 == if p == q {
            0u32
        } else {
            (s >> q) & 1u32
        },
        s == 0 ==> (s >> q) & 1u32 == 0u32,
        (s >> q) & 1u32 == 0u32 || (s >> q) & 1u32 == 1u32,
{
}

/// The highest ready priority is that of a queue with a thread, above which all
/// queues are empty.
pub proof fn lemma_highest(q: Seq<Seq<usize>>, below: int)
    requires
        below <= q.len(),
    ensures
        match highest_ready(q, below) {
            Some(p) => 0 <= p < below && q[p].len() > 0 && forall|k: int|
                p < k < below ==> (#[trigger] q[k]).len() == 0,
            None => forall|k: int| 0 <= k < below ==> (#[trigger] q[k]).len() == 0,
        },
    decreases below,
{
    if below > 0 && q[below - 1].len() == 0 {
        lemma_highest(q, below - 1);
    }
}

proof fn lemma_highest_is(q: Seq<Seq<usize>>, below: int, p: int)
    requires
        0 <= p < below <= q.len(),
        q[p].len() > 0,
        forall|k: int| p < k < below ==> (#[trigger] q[k]).len() == 0,
    ensures
        highest_ready(q, below) == Some(p),
    decreases below,
{
    if p < below - 1 {
        assert(q[below - 1].len() == 0);
        lemma_highest_is(q, below - 1, p);
    }
}

impl View for ReadyQueues {
    type V = Seq<Seq<usize>>;

    open spec fn view(&self) -> Seq<Seq<usize>> {
        Seq::new(self.queues@.len(), |i: int| self.queues@[i]@)
    }
}

impl ReadyQueues {
    /// All queues exist and the summary tells which are not empty.
    pub open spec fn wf(&self) -> bool {
        &&& self.queues@.len() == PRIORITIES
        &&& forall|p: u32|
            p < 32 ==> #[trigger] summary_bit(self.summary, p) == (self.queues@[p as int]@.len() > 0)
    }

    /// All queues empty.
    pub fn new() -> (r: Self)
        ensures
            r.wf(),
            r@.len() == PRIORITIES,
            forall|p: int| 0 <= p < PRIORITIES ==> (#[trigger] r@[p]).len() == 0,
    {
        let mut queues: Vec<Vec<usize>> = Vec::new();
        let mut i: usize = 0;
        while i < PRIORITIES
            invariant
                i <= PRIORITIES,
                queues@.len() == i,
                forall|k: int| 0 <= k < i ==> (#[trigger] queues@[k])@.len() == 0,
            decreases PRIORITIES - i,
        {
            queues.push(Vec::new());
            i = i + 1;
        }
        let r = ReadyQueues { queues, summary: 0 };
        proof {
            assert forall|p: u32| p < 32 implies #[trigger] summary_bit(0, p) == (
            r.queues@[p as int]@.len() > 0) by {
                lemma_bits(0, 0, p);
            }
        }
        r
    }

    /// Add a thread at the end of its priority's queue.
    pub fn insert(&mut self, t: usize, priority: u8)
        requires
            old(self).wf(),
            priority < PRIORITIES,
        ensures
            final(self).wf(),
            final(self)@ == with_ready(old(self)@, t, priority as int),
    {
        let ghost before = self@;
        let ghost s0 = self.summary;
        let p: usize = priority as usize;
        let mut q: Vec<usize> = Vec::new();
        std::mem::swap(&mut self.queues[p], &mut q);
        q.push(t);
        self.queues.set(p, q);
        self.summary = self.summary | (1u32 << priority as u32);
        proof {
            assert forall|k: u32| k < 32 implies #[trigger] summary_bit(self.summary, k) == (
            self.queues@[k as int]@.len() > 0) by {
                lemma_bits(s0, priority as u32, k);
                assert(summary_bit(s0, k) == (before[k as int].len() > 0));
            }
            assert(self@ =~= with_ready(before, t, priority as int));
        }
    }

    /// The highest priority with a ready thread.
    pub fn highest(&self) -> (r: Option<u8>)
        requires
            self.wf(),
        ensures
            match r {
                Some(p) => highest_ready(self@, PRIORITIES as int) == Some(p as int) && p < 32,
                None => highest_ready(self@, PRIORITIES as int) is None,
            },
    {
        proof {
            axiom_u32_leading_zeros(self.summary);
            lemma_highest(self@, 32);
        }
        if self.summary == 0 {
            proof {
                assert forall|k: int| 0 <= k < 32 implies (#[trigger] self@[k]).len() == 0 by {
                    lemma_bits(0, 0, k as u32);
                    assert(!summary_bit(self.summary, k as u32));
                }
            }
            return None;
        }
        let lz: u32 = self.summary.leading_zeros();
        let p: u32 = 31 - lz;
        proof {
            lemma_bits(self.summary, 0, p);
            assert(summary_bit(self.summary, p));
            assert forall|k: int| p < k < 32 implies (#[trigger] self@[k]).len() == 0 by {
                let j = k as u32;
                assert((self.summary >> j) & 1u32 == 0u32);
                assert(!summary_bit(self.summary, j));
            }
            lemma_highest_is(self@, 32, p as int);
        }
        Some(p as u8)
    }

    /// Take the thread that runs next.
    pub fn take_next(&mut self) -> (r: Option<usize>)
        requires
            old(self).wf(),
        ensures
            final(self).wf(),
            (final(self)@, r) == next_ready(old(self)@),
    {
        let ghost before = self@;
        let ghost s0 = self.summary;
        let p: u8 = match self.highest() {
            Some(p) => p,
            None => {
                return None;
            },
        };
        proof {
            lemma_highest(before, 32);
        }
        let i: usize = p as usize;
        let mut q: Vec<usize> = Vec::new();
        std::mem::swap(&mut self.queues[i], &mut q);
        assert(q@ == before[i as int]);
        let t: usize = q.remove(0);
        assert(q@ =~= before[i as int].skip(1));
        if q.len() == 0 {
            self.summary = self.summary & !(1u32 << p as u32);
        }
        self.queues.set(i, q);
        proof {
            assert forall|k: u32| k < 32 implies #[trigger] summary_bit(self.summary, k) == (
            self.queues@[k as int]@.len() > 0) by {
                lemma_bits(s0, p as u32, k);
                assert(summary_bit(s0, k) == (before[k as int].len() > 0));
            }
            assert(self@ =~= next_ready(before).0);
        }
        Some(t)
    }
}

/// The thread chosen has the highest priority of all that are ready, and is the
/// oldest of that priority.
pub proof fn choice_is_highest_and_oldest(q: Seq<Seq<usize>>)
    requires
        q.len() == PRIORITIES,
    ensures
        match next_ready(q).1 {
            Some(t) => exists|p: int|
                {
                    &&& 0 <= p < PRIORITIES
                    &&& (#[trigger] q[p]).len() > 0
                    &&& q[p][0] == t
                    &&& forall|k: int| p < k < PRIORITIES ==> (#[trigger] q[k]).len() == 0
                },
            None => forall|k: int| 0 <= k < PRIORITIES ==> (#[trigger] q[k]).len() == 0,
        },
{
    lemma_highest(q, PRIORITIES as int);
}

/// Threads of one priority leave in the order they came.
pub proof fn same_priority_is_first_in_first_out(q: Seq<Seq<usize>>, p: int, a: usize, b: usize)
    requires
        q.len() == PRIORITIES,
        0 <= p < PRIORITIES,
        forall|k: int| 0 <= k < PRIORITIES ==> (#[trigger] q[k]).len() == 0,
    ensures
        ({
            let (q1, x) = next_ready(with_ready(with_ready(q, a, p), b, p));
            let (q2, y) = next_ready(q1);
            x == Some(a) && y == Some(b) && next_ready(q2).1 is None
        }),
{
    let s = with_ready(with_ready(q, a, p), b, p);
    lemma_highest_is(s, 32, p);
    let (q1, x) = next_ready(s);
    assert(q1[p].len() == 1 && q1[p][0] == b);
    lemma_highest_is(q1, 32, p);
    let (q2, y) = next_ready(q1);
    lemma_highest(q2, 32);
    assert(q2[p].len() == 0);
}

} // verus!
