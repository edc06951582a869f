//! The discipline of a worker pool: a fixed number of workers take jobs
//! from one queue, each job goes to one worker, a job that panics costs no
//! worker, and shutdown waits until the queue is drained.
//!
//! The threads, the channel and the jobs themselves belong to the program
//! that runs the pool. This module holds the decisions of a worker, and a
//! model of the pool on which the laws of the discipline are proved.

use vstd::prelude::*;

verus! {

/// What a worker is doing.
#[derive(Debug, Clone, Copy, PartialEq, Eq, Structural)]
pub enum WorkerState {
    /// It waits on the queue.
    Waiting,
    /// It runs a job.
    Running,
    /// It has left its loop.
    Exited,
}

/// What happens to a worker.
#[derive(Debug, Clone, Copy, PartialEq, Eq, Structural)]
pub enum WorkerEvent {
    /// Its wait on the queue brought a job.
    Received,
    /// Its wait on the queue brought word that the queue is closed and empty.
    Closed,
    /// Its job returned.
    Returned,
    /// Its job panicked.
    Panicked,
}

/// What a worker does next: a waiting worker runs the job that it receives
/// and exits when the queue is closed; a running worker waits again once
/// its job is over, however it ended. Nothing else changes a worker.
pub open spec fn worker_next(state: WorkerState, event: WorkerEvent) -> WorkerState {
    match (state, event) {
        (WorkerState::Waiting, WorkerEvent::Received) => WorkerState::Running,
        (WorkerState::Waiting, WorkerEvent::Closed) => WorkerState::Exited,
        (WorkerState::Running, WorkerEvent::Returned) => WorkerState::Waiting,
        (WorkerState::Running, WorkerEvent::Panicked) => WorkerState::Waiting,
        _ => state,
    }
}

/// The state of a worker after an event.
pub fn worker_step(state: WorkerState, event: WorkerEvent) -> (next: WorkerState)
    ensures
        next == worker_next(state, event),
{
    match state {
        WorkerState::Waiting => match event {
            WorkerEvent::Received => WorkerState::Running,
            WorkerEvent::Closed => WorkerState::Exited,
            _ => state,
        },
        WorkerState::Running => match event {
            WorkerEvent::Returned => WorkerState::Waiting,
            WorkerEvent::Panicked => WorkerState::Waiting,
            _ => state,
        },
        WorkerState::Exited => state,
    }
}

/// Whether a pool can have so many workers: it needs one at least.
pub fn valid_size(size: usize) -> (b: bool)
    ensures
        b == (size > 0),
{
    size > 0
}

/// A worker in the model of a pool. Jobs are told apart by numbers.
pub enum Slot {
    Idle,
    Busy(int),
    Gone,
}

/// The model of a pool: its workers, the jobs that wait, whether jobs are
/// still accepted, and the jobs that are over.
pub struct Pool {
    pub slots: Seq<Slot>,
    pub queue: Seq<int>,
    pub open: bool,
    pub finished: Set<int>,
}

/// What can happen in a pool.
pub enum PoolStep {
    /// A job is submitted. A closed pool drops it.
    Submit(int),
    /// A worker takes the job that waits longest.
    Take(int),
    /// The job of a worker ends; the flag tells whether it panicked.
    Finish(int, bool),
    /// The sending side is closed.
    Close,
    /// A worker leaves its loop.
    Exit(int),
}

/// A pool of `size` workers to which nothing has happened yet.
pub open spec fn new_pool(size: nat) -> Pool {
    Pool {
        slots: Seq::new(size, |i: int| Slot::Idle),
        queue: Seq::empty(),
        open: true,
        finished: Set::empty(),
    }
}

/// The state of the worker in a slot.
pub open spec fn slot_state(slot: Slot) -> WorkerState {
    match slot {
        Slot::Idle => WorkerState::Waiting,
        Slot::Busy(_) => WorkerState::Running,
        Slot::Gone => WorkerState::Exited,
    }
}

/// Whether a step can happen: a worker takes a job only while it waits and
/// a job waits, a job ends only on the worker that runs it, and a worker
/// exits only while it waits, the pool is closed and no job waits.
pub open spec fn enabled(p: Pool, step: PoolStep) -> bool {
    match step {
        PoolStep::Submit(_) => true,
        PoolStep::Take(w) => 0 <= w < p.slots.len() && p.slots[w] is Idle && p.queue.len() > 0,
        PoolStep::Finish(w, _) => 0 <= w < p.slots.len() && p.slots[w] is Busy,
        PoolStep::Close => true,
        PoolStep::Exit(w) => 0 <= w < p.slots.len() && p.slots[w] is Idle && !p.open
            && p.queue.len() == 0,
    }
}

/// The pool after a step.
pub open spec fn apply(p: Pool, step: PoolStep) -> Pool {
    match step {
        PoolStep::Submit(job) => if p.open {
            Pool { queue: p.queue.push(job), ..p }
        } else {
            p
        },
        PoolStep::Take(w) => Pool {
            slots: p.slots.update(w, Slot::Busy(p.queue[0])),
            queue: p.queue.drop_first(),
            ..p
        },
        PoolStep::Finish(w, _) => Pool {
            slots: p.slots.update(w, Slot::Idle),
            finished: p.finished.insert(p.slots[w]->Busy_0),
            ..p
        },
        PoolStep::Close => Pool { open: false, ..p },
        PoolStep::Exit(w) => Pool { slots: p.slots.update(w, Slot::Gone), ..p },
    }
}

/// The pool after a sequence of steps.
pub open spec fn run(p: Pool, steps: Seq<PoolStep>) -> Pool
    decreases steps.len(),
{
    if steps.len() == 0 {
        p
    } else {
        apply(run(p, steps.drop_last()), steps.last())
    }
}

/// Whether each of `steps` can happen when its turn comes.
pub open spec fn valid_run(p: Pool, steps: Seq<PoolStep>) -> bool
    decreases steps.len(),
{
    steps.len() == 0 || (valid_run(p, steps.drop_last()) && enabled(
        run(p, steps.drop_last()),
        steps.last(),
    ))
}

/// The jobs that were submitted while the pool was open.
pub open spec fn accepted(p: Pool, steps: Seq<PoolStep>) -> Set<int>
    decreases steps.len(),
{
    if steps.len() == 0 {
        Set::empty()
    } else {
        let before = accepted(p, steps.drop_last());
        match steps.last() {
            PoolStep::Submit(job) => if run(p, steps.drop_last()).open {
                before.insert(job)
            } else {
                before
            },
            _ => before,
        }
    }
}

/// The number of submissions among `steps`.
pub open spec fn submissions(steps: Seq<PoolStep>) -> nat
    decreases steps.len(),
{
    if steps.len() == 0 {
        0
    } else {
        submissions(steps.drop_last()) + if steps.last() is Submit {
            1nat
        } else {
            0nat
        }
    }
}

/// The number of workers that run a job.
pub open spec fn busy_count(slots: Seq<Slot>) -> nat
    decreases slots.len(),
{
    if slots.len() == 0 {
        0
    } else {
        busy_count(slots.drop_last()) + if slots.last() is Busy {
            1nat
        } else {
            0nat
        }
    }
}

/// Whether every worker has left its loop: what shutdown waits for.
pub open spec fn all_gone(p: Pool) -> bool {
    forall|w: int| 0 <= w < p.slots.len() ==> (#[trigger] p.slots[w]) is Gone
}

/// Whether some worker runs the job.
pub open spec fn runs_job(p: Pool, job: int) -> bool {
    exists|w: int| 0 <= w < p.slots.len() && #[trigger] p.slots[w] == Slot::Busy(job)
}

/// A step changes the worker that it names as that worker decides, and no
/// other worker.
pub proof fn lemma_step_follows_worker(p: Pool, step: PoolStep, w: int)
    requires
        enabled(p, step),
        0 <= w < p.slots.len(),
    ensures
        apply(p, step).slots.len() == p.slots.len(),
        slot_state(apply(p, step).slots[w]) == match step {
            PoolStep::Take(v) if v == w => worker_next(
                slot_state(p.slots[w]),
                WorkerEvent::Received,
            ),
            PoolStep::Finish(v, panicked) if v == w => worker_next(
                slot_state(p.slots[w]),
                if panicked {
                    WorkerEvent::Panicked
                } else {
                    WorkerEvent::Returned
                },
            ),
            PoolStep::Exit(v) if v == w => worker_next(slot_state(p.slots[w]), WorkerEvent::Closed),
            _ => slot_state(p.slots[w]),
        },
{
}

/// Changing one worker changes the number of busy workers by that worker alone.
pub proof fn lemma_busy_count_update(slots: Seq<Slot>, w: int, slot: Slot)
    requires
        0 <= w < slots.len(),
    ensures
        busy_count(slots.update(w, slot)) + (if slots[w] is Busy {
            1nat
        } else {
            0nat
        }) == busy_count(slots) + (if slot is Busy {
            1nat
        } else {
            0nat
        }),
    decreases slots.len(),
{
    let after = slots.update(w, slot);
    if w == slots.len() - 1 {
        assert(after.drop_last() =~= slots.drop_last());
    } else {
        lemma_busy_count_update(slots.drop_last(), w, slot);
        assert(after.drop_last() =~= slots.drop_last().update(w, slot));
    }
}

/// No more workers are busy than there are, and all are busy only where
/// none is idle or gone.
pub proof fn lemma_busy_count_bound(slots: Seq<Slot>)
    ensures
        busy_count(slots) <= slots.len(),
        (forall|w: int| 0 <= w < slots.len() ==> (#[trigger] slots[w]) is Busy) ==> busy_count(
            slots,
        ) == slots.len(),
        busy_count(slots) == 0 <==> (forall|w: int|
            0 <= w < slots.len() ==> !((#[trigger] slots[w]) is Busy)),
    decreases slots.len(),
{
    if slots.len() > 0 {
        let front = slots.drop_last();
        lemma_busy_count_bound(front);
        assert forall|w: int| 0 <= w < front.len() implies front[w] == slots[w] by {}
        if forall|w: int| 0 <= w < slots.len() ==> (#[trigger] slots[w]) is Busy {
            assert forall|w: int| 0 <= w < front.len() implies (#[trigger] front[w]) is Busy by {
                assert(slots[w] is Busy);
            }
        }
        if busy_count(slots) == 0 {
            assert forall|w: int| 0 <= w < slots.len() implies !((#[trigger] slots[w]) is Busy) by {
                if w < front.len() {
                    assert(!(front[w] is Busy));
                }
            }
        }
        if forall|w: int| 0 <= w < slots.len() ==> !((#[trigger] slots[w]) is Busy) {
            assert forall|w: int| 0 <= w < front.len() implies !((#[trigger] front[w]) is Busy) by {
                assert(!(slots[w] is Busy));
            }
        }
    }
}

/// What holds of a pool while it is open and no job ends: every job that
/// was submitted waits or runs, no worker is gone and nothing is finished.
pub proof fn lemma_open_pool(size: nat, steps: Seq<PoolStep>)
    requires
        valid_run(new_pool(size), steps),
        forall|i: int|
            0 <= i < steps.len() ==> !((#[trigger] steps[i]) is Finish) && !(steps[i] is Close),
    ensures
        run(new_pool(size), steps).open,
        run(new_pool(size), steps).slots.len() == size,
        forall|w: int| 0 <= w < size ==> !((#[trigger] run(new_pool(size), steps).slots[w]) is Gone),
        busy_count(run(new_pool(size), steps).slots) + run(new_pool(size), steps).queue.len()
            == submissions(steps),
    decreases steps.len(),
{
    if steps.len() == 0 {
        lemma_busy_count_bound(new_pool(size).slots);
    } else {
        let front = steps.drop_last();
        assert forall|i: int| 0 <= i < front.len() implies !((#[trigger] front[i]) is Finish) && !(
        front[i] is Close) by {
            assert(front[i] == steps[i]);
        }
        lemma_open_pool(size, front);
        let p = run(new_pool(size), front);
        assert(steps.last() == steps[steps.len() - 1]);
        match steps.last() {
            PoolStep::Take(w) => {
                lemma_busy_count_update(p.slots, w, Slot::Busy(p.queue[0]));
            },
            _ => {},
        }
    }
}

/// Jobs that block: where more jobs were submitted to a pool than it has
/// workers, none has ended and no worker can take another, every worker
/// runs a job and the other jobs wait. In any case no more jobs run than
/// the pool has workers, and every job that does not run waits.
pub proof fn lemma_blocked_jobs(size: nat, steps: Seq<PoolStep>)
    requires
        valid_run(new_pool(size), steps),
        forall|i: int|
            0 <= i < steps.len() ==> !((#[trigger] steps[i]) is Finish) && !(steps[i] is Close),
    ensures
        busy_count(run(new_pool(size), steps).slots) <= size,
        busy_count(run(new_pool(size), steps).slots) + run(new_pool(size), steps).queue.len()
            == submissions(steps),
        submissions(steps) > size && (forall|w: int|
            !enabled(run(new_pool(size), steps), PoolStep::Take(w))) ==> busy_count(
            run(new_pool(size), steps).slots,
        ) == size && run(new_pool(size), steps).queue.len() == submissions(steps) - size,
{
    lemma_open_pool(size, steps);
    let p = run(new_pool(size), steps);
    lemma_busy_count_bound(p.slots);
    if submissions(steps) > size && (forall|w: int| !enabled(p, PoolStep::Take(w))) {
        assert(p.queue.len() > 0);
        assert forall|w: int| 0 <= w < p.slots.len() implies (#[trigger] p.slots[w]) is Busy by {
            assert(!enabled(p, PoolStep::Take(w)));
            assert(!(p.slots[w] is Gone));
        }
    }
}

/// A job that panics leaves the pool as a job that returns does: its
/// worker waits again. Where then a job is submitted to the open pool and
/// no other waits, that worker can take it and run it to its end.
pub proof fn lemma_panic_costs_no_worker(p: Pool, w: int, job: int)
    requires
        enabled(p, PoolStep::Finish(w, true)),
    ensures
        apply(p, PoolStep::Finish(w, true)) == apply(p, PoolStep::Finish(w, false)),
        apply(p, PoolStep::Finish(w, true)).slots[w] is Idle,
        p.open && p.queue.len() == 0 ==> valid_run(
            p,
            seq![
                PoolStep::Finish(w, true),
                PoolStep::Submit(job),
                PoolStep::Take(w),
                PoolStep::Finish(w, false),
            ],
        ) && run(
            p,
            seq![
                PoolStep::Finish(w, true),
                PoolStep::Submit(job),
                PoolStep::Take(w),
                PoolStep::Finish(w, false),
            ],
        ).finished.contains(job),
{
    if p.open && p.queue.len() == 0 {
        let four = seq![
            PoolStep::Finish(w, true),
            PoolStep::Submit(job),
            PoolStep::Take(w),
            PoolStep::Finish(w, false),
        ];
        let three = seq![PoolStep::Finish(w, true), PoolStep::Submit(job), PoolStep::Take(w)];
        let two = seq![PoolStep::Finish(w, true), PoolStep::Submit(job)];
        let one = seq![PoolStep::Finish(w, true)];
        let none = Seq::<PoolStep>::empty();
        assert(four.drop_last() =~= three);
        assert(three.drop_last() =~= two);
        assert(two.drop_last() =~= one);
        assert(one.drop_last() =~= none);
        let panicked = apply(p, PoolStep::Finish(w, true));
        assert(run(p, none) == p);
        assert(run(p, one) == panicked);
        let submitted = apply(panicked, PoolStep::Submit(job));
        assert(run(p, two) == submitted);
        assert(submitted.queue =~= seq![job]);
        let taken = apply(submitted, PoolStep::Take(w));
        assert(run(p, three) == taken);
        assert(taken.slots[w] == Slot::Busy(job));
        assert(valid_run(p, none));
        assert(valid_run(p, one));
        assert(valid_run(p, two));
        assert(valid_run(p, three));
        assert(valid_run(p, four));
    }
}

/// What holds of every pool: each job that was accepted waits, runs or is
/// finished, and once a worker is gone the pool is closed and no job waits.
pub proof fn lemma_pool_invariant(size: nat, steps: Seq<PoolStep>)
    requires
        valid_run(new_pool(size), steps),
    ensures
        run(new_pool(size), steps).slots.len() == size,
        forall|job: int| #[trigger]
            accepted(new_pool(size), steps).contains(job) ==> run(
                new_pool(size),
                steps,
            ).queue.contains(job) || runs_job(run(new_pool(size), steps), job) || run(
                new_pool(size),
                steps,
            ).finished.contains(job),
        (exists|w: int| 0 <= w < size && (#[trigger] run(new_pool(size), steps).slots[w]) is Gone)
            ==> !run(new_pool(size), steps).open && run(new_pool(size), steps).queue.len() == 0,
    decreases steps.len(),
{
    let start = new_pool(size);
    let p = run(start, steps);
    if steps.len() > 0 {
        let front = steps.drop_last();
        lemma_pool_invariant(size, front);
        let q = run(start, front);
        let step = steps.last();
        assert(p == apply(q, step));
        assert forall|job: int| #[trigger]
            accepted(start, steps).contains(job) implies p.queue.contains(job) || runs_job(p, job)
            || p.finished.contains(job) by {
            if accepted(start, front).contains(job) {
                if q.queue.contains(job) {
                    let i = choose|i: int| 0 <= i < q.queue.len() && q.queue[i] == job;
                    match step {
                        PoolStep::Submit(_) => {
                            if q.open {
                                assert(p.queue[i] == job);
                            }
                        },
                        PoolStep::Take(w) => {
                            if i == 0 {
                                assert(p.slots[w] == Slot::Busy(job));
                            } else {
                                assert(p.queue[i - 1] == job);
                            }
                        },
                        _ => {},
                    }
                } else if runs_job(q, job) {
                    let v = choose|v: int|
                        0 <= v < q.slots.len() && #[trigger] q.slots[v] == Slot::Busy(job);
                    match step {
                        PoolStep::Take(w) => {
                            assert(p.slots[v] == Slot::Busy(job));
                        },
                        PoolStep::Finish(w, _) => {
                            if w != v {
                                assert(p.slots[v] == Slot::Busy(job));
                            }
                        },
                        PoolStep::Exit(w) => {
                            assert(p.slots[v] == Slot::Busy(job));
                        },
                        _ => {
                            assert(p.slots[v] == Slot::Busy(job));
                        },
                    }
                }
            } else {
                assert(step == PoolStep::Submit(job) && q.open);
                assert(p.queue[p.queue.len() - 1] == job);
            }
        }
        if exists|w: int| 0 <= w < size && (#[trigger] p.slots[w]) is Gone {
            let g = choose|w: int| 0 <= w < size && (#[trigger] p.slots[w]) is Gone;
            match step {
                PoolStep::Exit(w) => {},
                PoolStep::Take(w) => {
                    assert(q.slots[g] is Gone);
                },
                PoolStep::Finish(w, _) => {
                    assert(q.slots[g] is Gone);
                },
                _ => {
                    assert(q.slots[g] is Gone);
                },
            }
        }
    }
}

/// Shutdown drains the pool: once every worker of a pool has left its
/// loop, no job waits, none runs, and every job that was accepted is
/// finished.
pub proof fn lemma_shutdown_drains(size: nat, steps: Seq<PoolStep>)
    requires
        size > 0,
        valid_run(new_pool(size), steps),
        all_gone(run(new_pool(size), steps)),
    ensures
        run(new_pool(size), steps).queue.len() == 0,
        busy_count(run(new_pool(size), steps).slots) == 0,
        forall|job: int| #[trigger]
            accepted(new_pool(size), steps).contains(job) ==> run(
                new_pool(size),
                steps,
            ).finished.contains(job),
{
    let p = run(new_pool(size), steps);
    lemma_pool_invariant(size, steps);
    assert(p.slots[0] is Gone);
    lemma_busy_count_bound(p.slots);
    assert forall|job: int| #[trigger]
        accepted(new_pool(size), steps).contains(job) implies p.finished.contains(job) by {
        if runs_job(p, job) {
            let v = choose|v: int| 0 <= v < p.slots.len() && #[trigger] p.slots[v] == Slot::Busy(job);
            assert(p.slots[v] is Gone);
        }
    }
}

} // verus!
