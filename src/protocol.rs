//! The test-and-test-and-set acquisition protocol of a spin lock, and a model
//! of many workers incrementing a shared counter through it, with the laws
//! that hold of every interleaving of the model.
//!
//! `Mutex` does not run this protocol: it waits through vstd's `RwLock`. The
//! lemmas here are proved of the model (a flag, a counter and the workers'
//! program counters stepping one at a time), not of `Mutex::with_lock`, whose
//! contract speaks only of the lock's invariant.
use vstd::prelude::*;

verus! {

/// Where a contender stands in the test-and-test-and-set acquisition.
#[derive(PartialEq, Eq, Structural, Clone, Copy, Debug)]
pub enum Contend {
    /// The next operation is a compare-and-swap of the flag from unlocked to locked.
    Trying,
    /// The last compare-and-swap failed; the next operation is a plain load of the flag.
    Waiting,
    /// The compare-and-swap succeeded: the contender holds the lock.
    Acquired,
}

/// The step a contender takes from `c` when the flag reads `locked`: its next
/// standing and the flag afterwards.
pub open spec fn contend_step(c: Contend, locked: bool) -> (Contend, bool) {
    match c {
        Contend::Trying => if locked {
            (Contend::Waiting, true)
        } else {
            (Contend::Acquired, true)
        },
        Contend::Waiting => if locked {
            (Contend::Waiting, true)
        } else {
            (Contend::Trying, false)
        },
        Contend::Acquired => (Contend::Acquired, locked),
    }
}

/// One step of a contender that sees the flag as `locked`.
///
/// A compare-and-swap that finds the flag set leaves it set and sends the
/// contender to spin on loads; a load that finds it clear sends it back to the
/// compare-and-swap. Only a compare-and-swap on a clear flag acquires.
pub fn contend(c: Contend, locked: bool) -> (r: (Contend, bool))
    ensures
        r == contend_step(c, locked),
        r.0 == Contend::Acquired ==> c == Contend::Acquired || (c == Contend::Trying && !locked),
{
    match c {
        Contend::Trying => if locked {
            (Contend::Waiting, true)
        } else {
            (Contend::Acquired, true)
        },
        Contend::Waiting => if locked {
            (Contend::Waiting, true)
        } else {
            (Contend::Trying, false)
        },
        Contend::Acquired => (Contend::Acquired, locked),
    }
}

} // verus!

verus! {

/// Program counter of a worker of the counting workload: it acquires the lock,
/// reads the counter into a private register, writes the register plus one
/// back, releases the lock, and starts over until it has done its share.
pub enum Pc {
    Contending(Contend),
    Read,
    Write { seen: int },
    Release,
    Done,
}

pub struct Worker {
    pub pc: Pc,
    /// Increments completed and released so far.
    pub done: nat,
}

/// The whole workload: the lock flag, the shared counter and the workers,
/// each of which is to make `share` increments.
pub struct System {
    pub locked: bool,
    pub counter: int,
    pub workers: Seq<Worker>,
    pub share: nat,
}

/// A worker that has not started yet: it is done at once when its share is nothing.
pub open spec fn fresh(share: nat) -> Worker {
    Worker { pc: if share == 0 { Pc::Done } else { Pc::Contending(Contend::Trying) }, done: 0 }
}

/// `count` workers with `share` increments each, over a counter that starts at `start`.
pub open spec fn init(count: nat, share: nat, start: int) -> System {
    System {
        locked: false,
        counter: start,
        workers: Seq::new(count, |i: int| fresh(share)),
        share,
    }
}

/// Whether the worker is inside its critical section.
pub open spec fn holds(w: Worker) -> bool {
    w.pc is Read || w.pc is Write || w.pc is Release
}

/// The state after worker `i` makes one step; an index out of range changes nothing.
pub open spec fn step(s: System, i: int) -> System {
    if 0 <= i < s.workers.len() {
        let w = s.workers[i];
        match w.pc {
            Pc::Contending(c) => {
                let (c2, locked2) = contend_step(c, s.locked);
                let pc2 = if c2 == Contend::Acquired { Pc::Read } else { Pc::Contending(c2) };
                System { locked: locked2, workers: s.workers.update(i, Worker { pc: pc2, ..w }), ..s }
            },
            Pc::Read => System {
                workers: s.workers.update(i, Worker { pc: Pc::Write { seen: s.counter }, ..w }),
                ..s
            },
            Pc::Write { seen } => System {
                counter: seen + 1,
                workers: s.workers.update(i, Worker { pc: Pc::Release, ..w }),
                ..s
            },
            Pc::Release => {
                let done2 = w.done + 1;
                let pc2 = if done2 < s.share { Pc::Contending(Contend::Trying) } else { Pc::Done };
                System {
                    locked: false,
                    workers: s.workers.update(i, Worker { pc: pc2, done: done2 as nat }),
                    ..s
                }
            },
            Pc::Done => s,
        }
    } else {
        s
    }
}

/// The state after the workers named by `schedule` step, in that order.
pub open spec fn run(s: System, schedule: Seq<int>) -> System
    decreases schedule.len(),
{
    if schedule.len() == 0 {
        s
    } else {
        step(run(s, schedule.drop_last()), schedule.last())
    }
}

/// Sum of `f` over the workers.
pub open spec fn total(ws: Seq<Worker>, f: spec_fn(Worker) -> int) -> int
    decreases ws.len(),
{
    if ws.len() == 0 {
        0
    } else {
        total(ws.drop_last(), f) + f(ws.last())
    }
}

/// Number of workers inside their critical section.
pub open spec fn holders(ws: Seq<Worker>) -> int {
    total(ws, holding())
}

pub open spec fn holding() -> spec_fn(Worker) -> int {
    |w: Worker| if holds(w) { 1int } else { 0int }
}

/// Increments that the worker has written to the counter.
pub open spec fn written(w: Worker) -> int {
    w.done + if w.pc is Release { 1int } else { 0int }
}

/// Increments written to the counter by all workers.
pub open spec fn increments(ws: Seq<Worker>) -> int {
    total(ws, writing())
}

pub open spec fn writing() -> spec_fn(Worker) -> int {
    |w: Worker| written(w)
}

pub open spec fn worker_wf(w: Worker, share: nat) -> bool {
    &&& w.done <= share
    &&& (w.pc is Done) == (w.done == share)
    &&& w.pc != Pc::Contending(Contend::Acquired)
}

/// What holds of every state that the workload can reach.
pub open spec fn reachable_wf(s: System, start: int) -> bool {
    &&& forall|i: int| 0 <= i < s.workers.len() ==> #[trigger] worker_wf(s.workers[i], s.share)
    &&& 0 <= holders(s.workers) <= 1
    &&& s.locked == (holders(s.workers) == 1)
    &&& s.counter == start + increments(s.workers)
    &&& forall|i: int| 0 <= i < s.workers.len() && #[trigger] s.workers[i].pc is Write
            ==> s.workers[i].pc->seen == s.counter
}

proof fn lemma_total_update(ws: Seq<Worker>, f: spec_fn(Worker) -> int, i: int, w: Worker)
    requires
        0 <= i < ws.len(),
    ensures
        total(ws.update(i, w), f) == total(ws, f) - f(ws[i]) + f(w),
    decreases ws.len(),
{
    let us = ws.update(i, w);
    if i == ws.len() - 1 {
        assert(us.drop_last() =~= ws.drop_last());
    } else {
        assert(us.drop_last() =~= ws.drop_last().update(i, w));
        lemma_total_update(ws.drop_last(), f, i, w);
    }
}

proof fn lemma_total_nonneg(ws: Seq<Worker>, f: spec_fn(Worker) -> int)
    requires
        forall|w: Worker| #[trigger] f(w) >= 0,
    ensures
        total(ws, f) >= 0,
    decreases ws.len(),
{
    if ws.len() > 0 {
        lemma_total_nonneg(ws.drop_last(), f);
    }
}

proof fn lemma_total_one(ws: Seq<Worker>, f: spec_fn(Worker) -> int, i: int)
    requires
        forall|w: Worker| #[trigger] f(w) >= 0,
        0 <= i < ws.len(),
    ensures
        total(ws, f) >= f(ws[i]),
    decreases ws.len(),
{
    lemma_total_nonneg(ws.drop_last(), f);
    if i < ws.len() - 1 {
        lemma_total_one(ws.drop_last(), f, i);
    }
}

proof fn lemma_total_two(ws: Seq<Worker>, f: spec_fn(Worker) -> int, i: int, j: int)
    requires
        forall|w: Worker| #[trigger] f(w) >= 0,
        0 <= i < ws.len(),
        0 <= j < ws.len(),
        i != j,
    ensures
        total(ws, f) >= f(ws[i]) + f(ws[j]),
    decreases ws.len(),
{
    let last = ws.len() - 1;
    if i == last {
        lemma_total_one(ws.drop_last(), f, j);
    } else if j == last {
        lemma_total_one(ws.drop_last(), f, i);
    } else {
        lemma_total_two(ws.drop_last(), f, i, j);
    }
}

proof fn lemma_total_const(ws: Seq<Worker>, f: spec_fn(Worker) -> int, c: int)
    requires
        forall|i: int| 0 <= i < ws.len() ==> #[trigger] f(ws[i]) == c,
    ensures
        total(ws, f) == ws.len() * c,
    decreases ws.len(),
{
    if ws.len() > 0 {
        let k = ws.len() - 1;
        assert forall|i: int| 0 <= i < ws.drop_last().len() implies #[trigger] f(ws.drop_last()[i]) == c by {
            assert(ws.drop_last()[i] == ws[i]);
        }
        lemma_total_const(ws.drop_last(), f, c);
        assert(f(ws[k]) == c);
        assert(k * c + c == ws.len() * c) by (nonlinear_arith)
            requires k == ws.len() - 1;
    }
}

proof fn lemma_init(count: nat, share: nat, start: int)
    ensures
        reachable_wf(init(count, share, start), start),
{
    let s = init(count, share, start);
    lemma_total_const(s.workers, holding(), 0);
    lemma_total_const(s.workers, writing(), 0);
}

proof fn lemma_step(s: System, start: int, i: int)
    requires
        reachable_wf(s, start),
    ensures
        reachable_wf(step(s, i), start),
{
    if 0 <= i < s.workers.len() {
        let w = s.workers[i];
        let t = step(s, i);
        assert(worker_wf(w, s.share));
        lemma_total_update(s.workers, holding(), i, t.workers[i]);
        lemma_total_update(s.workers, writing(), i, t.workers[i]);
        assert forall|j: int| 0 <= j < s.workers.len() && j != i && holds(s.workers[j]) implies !holds(w) by {
            lemma_total_two(s.workers, holding(), i, j);
        }
        assert forall|j: int| 0 <= j < s.workers.len() && holds(s.workers[j]) implies s.locked by {
            lemma_total_one(s.workers, holding(), j);
        }
        if holds(w) {
            lemma_total_one(s.workers, holding(), i);
        }
        assert forall|j: int| 0 <= j < t.workers.len() implies #[trigger] worker_wf(t.workers[j], t.share) by {
            if j != i {
                assert(worker_wf(s.workers[j], s.share));
            }
        }
        assert forall|j: int| 0 <= j < t.workers.len() && #[trigger] t.workers[j].pc is Write
            implies t.workers[j].pc->seen == t.counter by {
            if j != i {
                assert(holds(s.workers[j]));
            }
        }
    }
}

proof fn lemma_run(count: nat, share: nat, start: int, schedule: Seq<int>)
    ensures
        reachable_wf(run(init(count, share, start), schedule), start),
        run(init(count, share, start), schedule).workers.len() == count,
        run(init(count, share, start), schedule).share == share,
    decreases schedule.len(),
{
    if schedule.len() == 0 {
        lemma_init(count, share, start);
    } else {
        lemma_run(count, share, start, schedule.drop_last());
        lemma_step(run(init(count, share, start), schedule.drop_last()), start, schedule.last());
    }
}

/// In the model, no lost updates: however the steps of `count` workers, each making `share`
/// increments through the lock, interleave, once every worker is done the
/// counter has grown by exactly `count * share`.
pub proof fn lemma_no_lost_updates(count: nat, share: nat, start: int, schedule: Seq<int>)
    ensures
        ({
            let s = run(init(count, share, start), schedule);
            (forall|i: int| 0 <= i < count ==> #[trigger] s.workers[i].pc is Done)
                ==> s.counter == start + count * share
        }),
{
    let s = run(init(count, share, start), schedule);
    lemma_run(count, share, start, schedule);
    if forall|i: int| 0 <= i < count ==> #[trigger] s.workers[i].pc is Done {
        assert forall|i: int| 0 <= i < s.workers.len() implies #[trigger] writing()(s.workers[i])
            == share by {
            assert(s.workers[i].pc is Done);
            assert(worker_wf(s.workers[i], share));
        }
        lemma_total_const(s.workers, writing(), share as int);
    }
}

/// In the model, mutual exclusion: in every reachable state at most one worker is inside its
/// critical section, and the flag is set exactly when one is.
pub proof fn lemma_single_holder(count: nat, share: nat, start: int, schedule: Seq<int>)
    ensures
        ({
            let s = run(init(count, share, start), schedule);
            &&& forall|i: int, j: int|
                0 <= i < count && 0 <= j < count && #[trigger] holds(s.workers[i])
                    && #[trigger] holds(s.workers[j]) ==> i == j
            &&& s.locked == exists|i: int| 0 <= i < count && #[trigger] holds(s.workers[i])
        }),
{
    let s = run(init(count, share, start), schedule);
    lemma_run(count, share, start, schedule);
    assert forall|i: int, j: int|
        0 <= i < count && 0 <= j < count && #[trigger] holds(s.workers[i])
            && #[trigger] holds(s.workers[j]) implies i == j by {
        if i != j {
            lemma_total_two(s.workers, holding(), i, j);
        }
    }
    if s.locked {
        assert(exists|i: int| 0 <= i < count && #[trigger] holds(s.workers[i])) by {
            lemma_holder_exists(s.workers);
        }
    }
    if exists|i: int| 0 <= i < count && #[trigger] holds(s.workers[i]) {
        let i = choose|i: int| 0 <= i < count && #[trigger] holds(s.workers[i]);
        lemma_total_one(s.workers, holding(), i);
    }
}

proof fn lemma_holder_exists(ws: Seq<Worker>)
    requires
        holders(ws) > 0,
    ensures
        exists|i: int| 0 <= i < ws.len() && #[trigger] holds(ws[i]),
    decreases ws.len(),
{
    if !holds(ws.last()) {
        lemma_holder_exists(ws.drop_last());
        let i = choose|i: int| 0 <= i < ws.drop_last().len() && #[trigger] holds(ws.drop_last()[i]);
        assert(holds(ws[i]));
    } else {
        assert(holds(ws[ws.len() - 1]));
    }
}

/// In the model, no torn reads: the value that a worker reads inside its critical section is
/// the starting value plus the increments that workers have completely written.
pub proof fn lemma_reads_are_whole(count: nat, share: nat, start: int, schedule: Seq<int>, i: int)
    requires
        0 <= i < count,
    ensures
        ({
            let s = run(init(count, share, start), schedule);
            s.workers[i].pc is Write ==> s.workers[i].pc->seen == start + increments(s.workers)
        }),
{
    lemma_run(count, share, start, schedule);
}

/// In the model, no reentry: while worker `i` holds the lock the flag is set, so a
/// compare-and-swap by any contender, the holder included, fails, and spinning
/// on loads leaves it waiting.
pub proof fn lemma_no_reentry(count: nat, share: nat, start: int, schedule: Seq<int>, i: int)
    requires
        0 <= i < count,
        holds(run(init(count, share, start), schedule).workers[i]),
    ensures
        ({
            let s = run(init(count, share, start), schedule);
            &&& s.locked
            &&& contend_step(Contend::Trying, s.locked) == (Contend::Waiting, true)
            &&& contend_step(Contend::Waiting, s.locked) == (Contend::Waiting, true)
        }),
{
    let s = run(init(count, share, start), schedule);
    lemma_run(count, share, start, schedule);
    lemma_total_one(s.workers, holding(), i);
}

/// In the model, a fresh lock hands out its initial value: the first critical section,
/// entered right after construction, reads `start`.
pub proof fn lemma_first_read(count: nat, share: nat, start: int, i: int)
    requires
        0 <= i < count,
        share > 0,
    ensures
        run(init(count, share, start), seq![i, i]).workers[i].pc == (Pc::Write { seen: start }),
{
    let s0 = init(count, share, start);
    let sched = seq![i, i];
    assert(sched.drop_last() =~= seq![i]);
    assert(seq![i].drop_last() =~= Seq::<int>::empty());
    assert(run(s0, Seq::<int>::empty()) == s0);
    assert(run(s0, seq![i]) == step(s0, i));
}

} // verus!
