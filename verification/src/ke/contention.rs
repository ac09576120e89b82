//! Threads that race for a spinlock.
//!
//! Each thread raises its level, claims the lock word until it gets it, reads the guarded
//! number, writes it back one higher, frees the word and returns to its level. The steps
//! of the threads come in any order. However they are mixed, no increment is lost.
use crate::ke::irql::DISPATCH_LEVEL;
use crate::ke::spinlock::claim;
use vstd::prelude::*;

verus! {

/// Where a thread stands; `before` is the level to return to.
pub enum Stage {
    Outside,
    Spinning { before: int },
    Holding { before: int },
    /// It has read the guarded number.
    Loaded { before: int, seen: int },
    /// It has written it back.
    Stored { before: int },
}

/// A thread: its level, its stage, and the rounds it has finished.
pub struct Contender {
    pub irql: int,
    pub stage: Stage,
    pub rounds: int,
}

/// The lock word, the guarded number and the threads.
pub struct Race {
    pub locked: bool,
    pub value: int,
    pub threads: Seq<Contender>,
}

/// The thread holds the lock.
pub open spec fn inside(c: Contender) -> bool {
    c.stage is Holding || c.stage is Loaded || c.stage is Stored
}

/// One step of thread `who`.
pub open spec fn stepped(r: Race, who: int) -> Race {
    let c = r.threads[who];
    match c.stage {
        Stage::Outside => Race {
            threads: r.threads.update(
                who,
                Contender {
                    irql: DISPATCH_LEVEL as int,
                    stage: Stage::Spinning { before: c.irql },
                    ..c
                },
            ),
            ..r
        },
        Stage::Spinning { before } => {
            let (locked, mine) = claim(r.locked);
            Race {
                locked,
                threads: if mine {
                    r.threads.update(who, Contender { stage: Stage::Holding { before }, ..c })
                } else {
                    r.threads
                },
                ..r
            }
        },
        Stage::Holding { before } => Race {
            threads: r.threads.update(
                who,
                Contender { stage: Stage::Loaded { before, seen: r.value }, ..c },
            ),
            ..r
        },
        Stage::Loaded { before, seen } => Race {
            value: seen + 1,
            threads: r.threads.update(who, Contender { stage: Stage::Stored { before }, ..c }),
            ..r
        },
        Stage::Stored { before } => Race {
            locked: false,
            threads: r.threads.update(
                who,
                Contender { irql: before, stage: Stage::Outside, rounds: c.rounds + 1 },
            ),
            ..r
        },
    }
}

/// The race after the threads of a schedule took their steps.
pub open spec fn raced(r: Race, schedule: Seq<int>) -> Race
    decreases schedule.len(),
{
    if schedule.len() == 0 {
        r
    } else {
        stepped(raced(r, schedule.drop_last()), schedule.last())
    }
}

/// Increments that have reached the guarded number.
pub open spec fn increments(ts: Seq<Contender>) -> int
    decreases ts.len(),
{
    if ts.len() == 0 {
        0
    } else {
        increments(ts.drop_last()) + ts.last().rounds + if ts.last().stage is Stored {
            1int
        } else {
            0
        }
    }
}

/// The lock is free, and every thread is outside, at the level `levels` gives it.
pub open spec fn at_rest(r: Race, levels: Seq<int>) -> bool {
    &&& levels.len() == r.threads.len()
    &&& forall|i: int|
        0 <= i < r.threads.len() ==> (#[trigger] r.threads[i]).stage is Outside && r.threads[i].irql
            == levels[i]
}

/// What every race keeps.
pub open spec fn exclusive(r: Race, levels: Seq<int>) -> bool {
    &&& levels.len() == r.threads.len()
    &&& forall|i: int, j: int|
        0 <= i < j < r.threads.len() ==> !(inside(#[trigger] r.threads[i]) && inside(
            #[trigger] r.threads[j],
        ))
    &&& r.locked == exists|i: int| 0 <= i < r.threads.len() && inside(#[trigger] r.threads[i])
    &&& forall|i: int|
        0 <= i < r.threads.len() ==> match (#[trigger] r.threads[i]).stage {
            Stage::Outside => r.threads[i].irql == levels[i],
            Stage::Spinning { before } => r.threads[i].irql == DISPATCH_LEVEL && before
                == levels[i],
            Stage::Holding { before } => r.threads[i].irql == DISPATCH_LEVEL && before == levels[i],
            Stage::Loaded { before, seen } => r.threads[i].irql == DISPATCH_LEVEL && before
                == levels[i] && seen == r.value,
            Stage::Stored { before } => r.threads[i].irql == DISPATCH_LEVEL && before == levels[i],
        }
}

proof fn lemma_increments_update(ts: Seq<Contender>, k: int, c: Contender)
    requires
        0 <= k < ts.len(),
    ensures
        increments(ts.update(k, c)) == increments(ts) - ts[k].rounds - (if ts[k].stage is Stored {
            1int
        } else {
            0
        }) + c.rounds + (if c.stage is Stored {
            1int
        } else {
            0
        }),
    decreases ts.len(),
{
    let u = ts.update(k, c);
    if k == ts.len() - 1 {
        assert(u.drop_last() =~= ts.drop_last());
    } else {
        assert(u.drop_last() =~= ts.drop_last().update(k, c));
        lemma_increments_update(ts.drop_last(), k, c);
    }
}

proof fn lemma_step(r: Race, who: int, levels: Seq<int>)
    requires
        exclusive(r, levels),
        0 <= who < r.threads.len(),
    ensures
        exclusive(stepped(r, who), levels),
        stepped(r, who).value - increments(stepped(r, who).threads) == r.value - increments(
            r.threads,
        ),
{
    let s = stepped(r, who);
    let c = r.threads[who];
    let n = s.threads[who];
    assert(s.threads =~= r.threads.update(who, n));
    lemma_increments_update(r.threads, who, n);
    assert forall|i: int| 0 <= i < r.threads.len() && i != who implies #[trigger] s.threads[i]
        == r.threads[i] by {}
    if inside(c) {
        assert(r.locked);
    }
    if inside(n) {
        assert(inside(s.threads[who]));
    }
    assert forall|i: int, j: int| 0 <= i < j < s.threads.len() implies !(inside(
        #[trigger] s.threads[i],
    ) && inside(#[trigger] s.threads[j])) by {
        if i != who && j != who {
            assert(!(inside(r.threads[i]) && inside(r.threads[j])));
        } else {
            let o = if i == who {
                j
            } else {
                i
            };
            if inside(n) && inside(s.threads[o]) {
                assert(inside(r.threads[o]));
                assert(r.locked);
                assert(inside(c));
                if i == who {
                    assert(!(inside(r.threads[who]) && inside(r.threads[o])));
                } else {
                    assert(!(inside(r.threads[o]) && inside(r.threads[who])));
                }
            }
        }
    }
    if s.locked && !inside(n) {
        let i = choose|i: int| 0 <= i < r.threads.len() && inside(#[trigger] r.threads[i]);
        assert(i != who);
        assert(inside(s.threads[i]));
    }
    if !s.locked {
        assert forall|i: int| 0 <= i < s.threads.len() implies !inside(#[trigger] s.threads[i]) by {
            if i != who && inside(r.threads[i]) {
                assert(r.locked);
                assert(inside(c));
                if i < who {
                    assert(!(inside(r.threads[i]) && inside(r.threads[who])));
                } else {
                    assert(!(inside(r.threads[who]) && inside(r.threads[i])));
                }
            }
        }
    }
    assert forall|i: int| 0 <= i < s.threads.len() implies match (#[trigger] s.threads[i]).stage {
        Stage::Outside => s.threads[i].irql == levels[i],
        Stage::Spinning { before } => s.threads[i].irql == DISPATCH_LEVEL && before == levels[i],
        Stage::Holding { before } => s.threads[i].irql == DISPATCH_LEVEL && before == levels[i],
        Stage::Loaded { before, seen } => s.threads[i].irql == DISPATCH_LEVEL && before == levels[i]
            && seen == s.value,
        Stage::Stored { before } => s.threads[i].irql == DISPATCH_LEVEL && before == levels[i],
    } by {
        if i != who {
            assert(s.threads[i] == r.threads[i]);
            if c.stage is Loaded && r.threads[i].stage is Loaded {
                if i < who {
                    assert(!(inside(r.threads[i]) && inside(r.threads[who])));
                } else {
                    assert(!(inside(r.threads[who]) && inside(r.threads[i])));
                }
            }
        }
    }
}

/// However the threads race: at most one is inside, the lock is held exactly while one is,
/// it runs at `DISPATCH_LEVEL` there and returns to its own level, it sees what the last
/// one left, and the number grows by exactly the increments made.
pub proof fn racing_threads_exclude_each_other(r: Race, schedule: Seq<int>, levels: Seq<int>)
    requires
        at_rest(r, levels),
        !r.locked,
        forall|k: int| 0 <= k < schedule.len() ==> 0 <= #[trigger] schedule[k] < r.threads.len(),
    ensures
        exclusive(raced(r, schedule), levels),
        raced(r, schedule).threads.len() == r.threads.len(),
        raced(r, schedule).value == r.value + increments(raced(r, schedule).threads) - increments(
            r.threads,
        ),
    decreases schedule.len(),
{
    if schedule.len() > 0 {
        let init = schedule.drop_last();
        assert forall|k: int| 0 <= k < init.len() implies 0 <= #[trigger] init[k]
            < r.threads.len() by {
            assert(init[k] == schedule[k]);
        }
        racing_threads_exclude_each_other(r, init, levels);
        assert(0 <= schedule[schedule.len() - 1] < r.threads.len());
        lemma_step(raced(r, init), schedule.last(), levels);
    }
}

proof fn lemma_same_rounds(ts: Seq<Contender>, n: int)
    requires
        forall|i: int|
            0 <= i < ts.len() ==> (#[trigger] ts[i]).stage is Outside && ts[i].rounds == n,
    ensures
        increments(ts) == ts.len() * n,
    decreases ts.len(),
{
    if ts.len() > 0 {
        let init = ts.drop_last();
        assert forall|i: int| 0 <= i < init.len() implies (#[trigger] init[i]).stage is Outside
            && init[i].rounds == n by {
            assert(init[i] == ts[i]);
        }
        lemma_same_rounds(init, n);
        assert(ts.last() == ts[ts.len() - 1]);
        assert(ts.len() * n == init.len() * n + n) by (nonlinear_arith)
            requires
                ts.len() == init.len() + 1,
        ;
    } else {
        assert(0 * n == 0) by (nonlinear_arith);
    }
}

/// When threads that made no increment yet have each made `n`, and all are outside again,
/// the number has grown by `n` for every thread, and every level is what it was.
pub proof fn no_increment_is_lost_in_a_race(
    r: Race,
    schedule: Seq<int>,
    levels: Seq<int>,
    n: int,
)
    requires
        at_rest(r, levels),
        !r.locked,
        forall|k: int| 0 <= k < schedule.len() ==> 0 <= #[trigger] schedule[k] < r.threads.len(),
        forall|i: int| 0 <= i < r.threads.len() ==> (#[trigger] r.threads[i]).rounds == 0,
        forall|i: int|
            0 <= i < r.threads.len() ==> (#[trigger] raced(r, schedule).threads[i]).stage is Outside
                && raced(r, schedule).threads[i].rounds == n,
    ensures
        raced(r, schedule).value == r.value + r.threads.len() * n,
        !raced(r, schedule).locked,
        at_rest(raced(r, schedule), levels),
{
    racing_threads_exclude_each_other(r, schedule, levels);
    let s = raced(r, schedule);
    lemma_same_rounds(r.threads, 0);
    lemma_same_rounds(s.threads, n);
    assert(r.threads.len() * 0 == 0) by (nonlinear_arith);
    assert forall|i: int| 0 <= i < s.threads.len() implies (#[trigger] s.threads[i]).stage is Outside
        && s.threads[i].irql == levels[i] by {}
}

} // verus!
