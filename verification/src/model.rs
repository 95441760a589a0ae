//! The mathematical model of the runtime.
//!
//! Every executable operation of the runtime is specified as a transition
//! on `Model`, a ghost image of the executor's whole state. The
//! well-formedness predicate `Model::wf` carries the central invariant of
//! the design: a task's reference count never falls below the number of
//! live logical holders of that task (ready-queue entries and wake handles
//! stored in sleep records).

use vstd::prelude::*;
use crate::waker::RawWakerExtended;
use crate::runtime::{Step, Task, Computation};
use crate::future::Sleep;

verus! {

/// Ghost image of a suspendable computation: its program, the index of the
/// next step to run, and the sleep record it is currently parked on, if
/// any.
#[verifier::ext_equal]
pub ghost struct CompM {
    pub steps: Seq<Step>,
    pub pc: int,
    pub waiting: Option<usize>,
}

/// Ghost image of a task: the optional computation slot, the shared
/// reference count, whether the computation has run to completion, and how
/// often it has been polled.
#[verifier::ext_equal]
pub ghost struct TaskM {
    pub slot: Option<CompM>,
    pub refs: int,
    pub done: bool,
    pub polls: int,
}

/// Ghost image of a sleep record.
#[verifier::ext_equal]
pub ghost struct SleepM {
    pub deadline: int,
    pub ready: bool,
    pub waker: Option<RawWakerExtended>,
}

/// Ghost image of the whole runtime state.
#[verifier::ext_equal]
pub ghost struct Model {
    pub tasks: Seq<TaskM>,
    pub queue: Seq<usize>,
    pub sleeps: Seq<SleepM>,
    pub now: int,
    pub spawner_live: bool,
    pub log: Seq<u64>,
}

impl View for Computation {
    type V = CompM;

    open spec fn view(&self) -> CompM {
        CompM { steps: self.steps@, pc: self.pc as int, waiting: self.waiting }
    }
}

impl View for Task {
    type V = TaskM;

    open spec fn view(&self) -> TaskM {
        TaskM {
            slot: match self.slot {
                Some(c) => Some(c@),
                None => None,
            },
            refs: self.refs as int,
            done: self.done,
            polls: self.polls as int,
        }
    }
}

impl View for Sleep {
    type V = SleepM;

    open spec fn view(&self) -> SleepM {
        SleepM { deadline: self.deadline as int, ready: self.is_ready, waker: self.waker }
    }
}

/// Element-wise view of a task table.
pub open spec fn tasks_view(s: Seq<Task>) -> Seq<TaskM> {
    Seq::new(s.len(), |i: int| s[i]@)
}

/// Element-wise view of a sleep table.
pub open spec fn sleeps_view(s: Seq<Sleep>) -> Seq<SleepM> {
    Seq::new(s.len(), |i: int| s[i]@)
}

/// How many entries of the ready queue refer to task `t`.
pub open spec fn count_q(q: Seq<usize>, t: usize) -> nat
    decreases q.len(),
{
    if q.len() == 0 {
        0
    } else {
        count_q(q.drop_last(), t) + if q.last() == t { 1nat } else { 0nat }
    }
}

/// The contribution of one sleep record to the holder count of task `t`.
pub open spec fn contrib_w(s: SleepM, t: usize) -> nat {
    match s.waker {
        Some(h) => if h.task == t { 1nat } else { 0nat },
        None => 0nat,
    }
}

/// How many sleep records store a wake handle for task `t`.
pub open spec fn count_w(ss: Seq<SleepM>, t: usize) -> nat
    decreases ss.len(),
{
    if ss.len() == 0 {
        0
    } else {
        count_w(ss.drop_last(), t) + contrib_w(ss.last(), t)
    }
}

impl Model {
    /// The live logical holders of task `t` inside the runtime state:
    /// ready-queue entries plus wake handles stored in sleep records.
    pub open spec fn holders(self, t: usize) -> nat {
        count_q(self.queue, t) + count_w(self.sleeps, t)
    }

    /// Well-formedness of one computation against a sleep table of length
    /// `n_sleeps`: the program counter is within bounds, and a parked
    /// computation points at an existing sleep record and stands at a
    /// pause step.
    pub open spec fn comp_wf(c: CompM, n_sleeps: int) -> bool {
        &&& 0 <= c.pc <= c.steps.len()
        &&& match c.waiting {
            Some(sid) => {
                &&& sid < n_sleeps
                &&& c.pc < c.steps.len()
                &&& c.steps[c.pc] is Pause
            },
            None => true,
        }
    }

    /// The runtime invariant.
    pub open spec fn wf(self) -> bool {
        &&& forall|i: int|
            0 <= i < self.queue.len() ==> (#[trigger] self.queue[i]) < self.tasks.len()
        &&& forall|t: usize|
            t < self.tasks.len() ==> (#[trigger] self.tasks[t as int].refs) >= self.holders(t)
        &&& forall|t: int|
            0 <= t < self.tasks.len() ==> (#[trigger] self.tasks[t].polls) >= 0
        &&& forall|s: int|
            0 <= s < self.sleeps.len() && (#[trigger] self.sleeps[s].ready) ==> {
                &&& self.sleeps[s].deadline <= self.now
                &&& self.sleeps[s].waker is None
            }
        &&& forall|s: int|
            0 <= s < self.sleeps.len() ==> match #[trigger] self.sleeps[s].waker {
                Some(h) => h.owned && h.task < self.tasks.len(),
                None => true,
            }
        &&& forall|t: int|
            0 <= t < self.tasks.len() ==> match #[trigger] self.tasks[t].slot {
                Some(c) => Self::comp_wf(c, self.sleeps.len() as int),
                None => true,
            }
        &&& forall|t: int|
            0 <= t < self.tasks.len() && (#[trigger] self.tasks[t].done)
                ==> self.tasks[t].slot is None
        &&& forall|t: int|
            0 <= t < self.tasks.len() && (#[trigger] self.tasks[t].refs) == 0
                ==> self.tasks[t].slot is None
    }

    /// The queue is permanently closed: no producer endpoint remains. The
    /// spawner has been dropped and every task — each of which holds a
    /// clone of the producer endpoint until its last reference goes — has
    /// been fully released.
    pub open spec fn closed(self) -> bool {
        &&& !self.spawner_live
        &&& forall|t: int| 0 <= t < self.tasks.len() ==> (#[trigger] self.tasks[t].refs) == 0
    }
}

/// The state of a freshly created executor/spawner pair.
pub open spec fn init_model() -> Model {
    Model {
        tasks: Seq::empty(),
        queue: Seq::empty(),
        sleeps: Seq::empty(),
        now: 0,
        spawner_live: true,
        log: Seq::empty(),
    }
}

// ---------------------------------------------------------------------------
// Counting and view lemmas
// ---------------------------------------------------------------------------

pub proof fn lemma_count_q_push(q: Seq<usize>, x: usize, t: usize)
    ensures
        count_q(q.push(x), t) == count_q(q, t) + if x == t { 1nat } else { 0nat },
{
    assert(q.push(x).drop_last() =~= q);
}

pub proof fn lemma_count_q_remove_first(q: Seq<usize>, t: usize)
    requires
        q.len() > 0,
    ensures
        count_q(q, t) == count_q(q.remove(0), t) + if q[0] == t { 1nat } else { 0nat },
    decreases q.len(),
{
    if q.len() == 1 {
        assert(q.remove(0) =~= Seq::<usize>::empty());
        assert(q.drop_last() =~= Seq::<usize>::empty());
        assert(q.last() == q[0]);
    } else {
        assert(q.remove(0).drop_last() =~= q.drop_last().remove(0));
        assert(q.remove(0).last() == q.last());
        lemma_count_q_remove_first(q.drop_last(), t);
        assert(q.drop_last()[0] == q[0]);
    }
}

pub proof fn lemma_count_q_oob(q: Seq<usize>, n: usize, t: usize)
    requires
        forall|i: int| 0 <= i < q.len() ==> (#[trigger] q[i]) < n,
        t >= n,
    ensures
        count_q(q, t) == 0,
    decreases q.len(),
{
    if q.len() > 0 {
        assert(q.last() == q[q.len() - 1]);
        lemma_count_q_oob(q.drop_last(), n, t);
    }
}

pub proof fn lemma_count_w_push(ss: Seq<SleepM>, x: SleepM, t: usize)
    ensures
        count_w(ss.push(x), t) == count_w(ss, t) + contrib_w(x, t),
{
    assert(ss.push(x).drop_last() =~= ss);
}

pub proof fn lemma_count_w_update(ss: Seq<SleepM>, i: int, x: SleepM, t: usize)
    requires
        0 <= i < ss.len(),
    ensures
        count_w(ss.update(i, x), t) + contrib_w(ss[i], t) == count_w(ss, t) + contrib_w(x, t),
    decreases ss.len(),
{
    if i == ss.len() - 1 {
        assert(ss.update(i, x).drop_last() =~= ss.drop_last());
        assert(ss.update(i, x).last() == x);
        assert(ss.last() == ss[i]);
    } else {
        assert(ss.update(i, x).drop_last() =~= ss.drop_last().update(i, x));
        assert(ss.update(i, x).last() == ss.last());
        lemma_count_w_update(ss.drop_last(), i, x, t);
        assert(ss.drop_last()[i] == ss[i]);
    }
}

pub proof fn lemma_count_w_oob(ss: Seq<SleepM>, n: usize, t: usize)
    requires
        forall|i: int|
            0 <= i < ss.len() ==> match #[trigger] ss[i].waker {
                Some(h) => h.task < n,
                None => true,
            },
        t >= n,
    ensures
        count_w(ss, t) == 0,
    decreases ss.len(),
{
    if ss.len() > 0 {
        assert(ss.last() == ss[ss.len() - 1]);
        lemma_count_w_oob(ss.drop_last(), n, t);
    }
}

pub proof fn lemma_tasks_view_push(s: Seq<Task>, x: Task)
    ensures
        tasks_view(s.push(x)) == tasks_view(s).push(x@),
{
    assert(tasks_view(s.push(x)) =~= tasks_view(s).push(x@));
}

pub proof fn lemma_tasks_view_update(s: Seq<Task>, i: int, x: Task)
    requires
        0 <= i < s.len(),
    ensures
        tasks_view(s.update(i, x)) == tasks_view(s).update(i, x@),
{
    assert(tasks_view(s.update(i, x)) =~= tasks_view(s).update(i, x@));
}

pub proof fn lemma_sleeps_view_push(s: Seq<Sleep>, x: Sleep)
    ensures
        sleeps_view(s.push(x)) == sleeps_view(s).push(x@),
{
    assert(sleeps_view(s.push(x)) =~= sleeps_view(s).push(x@));
}

pub proof fn lemma_sleeps_view_update(s: Seq<Sleep>, i: int, x: Sleep)
    requires
        0 <= i < s.len(),
    ensures
        sleeps_view(s.update(i, x)) == sleeps_view(s).update(i, x@),
{
    assert(sleeps_view(s.update(i, x)) =~= sleeps_view(s).update(i, x@));
}

// ---------------------------------------------------------------------------
// Transitions
// ---------------------------------------------------------------------------

/// The model with task `t` replaced by `tk`.
pub open spec fn with_task(m: Model, t: usize, tk: TaskM) -> Model {
    Model { tasks: m.tasks.update(t as int, tk), ..m }
}

/// Cloning a wake handle for task `t`: one more owned reference.
pub open spec fn clone_t(m: Model, t: usize) -> Model {
    with_task(m, t, TaskM { refs: m.tasks[t as int].refs + 1, ..m.tasks[t as int] })
}

/// Releasing one owned reference to task `t`; the last release frees the
/// task's computation slot.
pub open spec fn drop_t(m: Model, t: usize) -> Model {
    let r = m.tasks[t as int].refs - 1;
    with_task(
        m,
        t,
        TaskM {
            refs: r,
            slot: if r == 0 { None } else { m.tasks[t as int].slot },
            ..m.tasks[t as int]
        },
    )
}

/// Wake by consuming an owned handle: the handle's reference moves into
/// the new queue entry, so the count is unchanged.
pub open spec fn wake_owned_t(m: Model, t: usize) -> Model {
    Model { queue: m.queue.push(t), ..m }
}

/// Wake through a borrowed handle: a fresh reference is taken for the new
/// queue entry.
pub open spec fn wake_ref_t(m: Model, t: usize) -> Model {
    let m1 = clone_t(m, t);
    Model { queue: m1.queue.push(t), ..m1 }
}

/// Spawning a computation: a new task with one reference, held by its
/// fresh ready-queue entry.
pub open spec fn spawn_t(m: Model, steps: Seq<Step>) -> Model {
    let id = m.tasks.len() as usize;
    Model {
        tasks: m.tasks.push(
            TaskM {
                slot: Some(CompM { steps, pc: 0, waiting: None }),
                refs: 1,
                done: false,
                polls: 0,
            },
        ),
        queue: m.queue.push(id),
        ..m
    }
}

/// Dropping the spawner endpoint.
pub open spec fn close_t(m: Model) -> Model {
    Model { spawner_live: false, ..m }
}

/// The logical clock advancing by `d`.
pub open spec fn advance_t(m: Model, d: u64) -> Model {
    Model { now: m.now + d, ..m }
}

/// A deadline `dur` units from `now`, capped at the end of the clock's
/// range.
pub open spec fn deadline_of(now: int, dur: u64) -> int {
    if now + dur > u64::MAX { u64::MAX as int } else { now + dur }
}

/// Constructing a suspension primitive of duration `dur`: a pending sleep
/// record whose deadline is `dur` from now.
pub open spec fn sleep_t(m: Model, dur: u64) -> Model {
    Model {
        sleeps: m.sleeps.push(
            SleepM { deadline: deadline_of(m.now, dur), ready: false, waker: None },
        ),
        ..m
    }
}

/// The timer of sleep `s` firing: the record becomes ready once and
/// forever, and the stored wake handle, if any, is consumed to re-enqueue
/// its task.
pub open spec fn fire_t(m: Model, s: usize) -> Model {
    let taken = m.sleeps[s as int].waker;
    let m1 = Model {
        sleeps: m.sleeps.update(
            s as int,
            SleepM { ready: true, waker: None, ..m.sleeps[s as int] },
        ),
        ..m
    };
    match taken {
        None => m1,
        Some(h) => wake_owned_t(m1, h.task),
    }
}

/// Installing a wake handle for task `t` into pending sleep `s`: a fresh
/// owned clone is stored, and the displaced handle, if any, is released.
pub open spec fn install_t(m: Model, s: usize, t: usize) -> Model {
    let m1 = clone_t(m, t);
    let displaced = m1.sleeps[s as int].waker;
    let m2 = Model {
        sleeps: m1.sleeps.update(
            s as int,
            SleepM {
                waker: Some(RawWakerExtended { task: t, owned: true }),
                ..m1.sleeps[s as int]
            },
        ),
        ..m1
    };
    match displaced {
        None => m2,
        Some(d) => drop_t(m2, d.task),
    }
}

// ---------------------------------------------------------------------------
// Preservation of the invariant
// ---------------------------------------------------------------------------

pub proof fn lemma_clone_wf(m: Model, t: usize)
    requires
        m.wf(),
        t < m.tasks.len(),
    ensures
        clone_t(m, t).wf(),
{
}

pub proof fn lemma_drop_wf(m: Model, t: usize)
    requires
        m.wf(),
        t < m.tasks.len(),
        m.tasks[t as int].refs > m.holders(t),
    ensures
        drop_t(m, t).wf(),
{
}

pub proof fn lemma_wake_owned_wf(m: Model, t: usize)
    requires
        m.wf(),
        t < m.tasks.len(),
        m.tasks[t as int].refs > m.holders(t),
    ensures
        wake_owned_t(m, t).wf(),
{
    let m1 = wake_owned_t(m, t);
    assert forall|u: usize| u < m1.tasks.len() implies m1.tasks[u as int].refs >= m1.holders(
        u,
    ) by {
        lemma_count_q_push(m.queue, t, u);
    };
}

pub proof fn lemma_wake_ref_wf(m: Model, t: usize)
    requires
        m.wf(),
        t < m.tasks.len(),
    ensures
        wake_ref_t(m, t).wf(),
{
    let m1 = wake_ref_t(m, t);
    assert forall|u: usize| u < m1.tasks.len() implies m1.tasks[u as int].refs >= m1.holders(
        u,
    ) by {
        lemma_count_q_push(m.queue, t, u);
    };
}

pub proof fn lemma_spawn_wf(m: Model, steps: Seq<Step>)
    requires
        m.wf(),
        m.tasks.len() < usize::MAX,
    ensures
        spawn_t(m, steps).wf(),
{
    let id = m.tasks.len() as usize;
    let m1 = spawn_t(m, steps);
    assert forall|u: usize| u < m1.tasks.len() implies m1.tasks[u as int].refs >= m1.holders(
        u,
    ) by {
        lemma_count_q_push(m.queue, id, u);
        if u == id {
            lemma_count_q_oob(m.queue, id, u);
            lemma_count_w_oob(m.sleeps, id, u);
        }
    };
}

pub proof fn lemma_advance_wf(m: Model, d: u64)
    requires
        m.wf(),
    ensures
        advance_t(m, d).wf(),
{
}

pub proof fn lemma_sleep_wf(m: Model, dur: u64)
    requires
        m.wf(),
    ensures
        sleep_t(m, dur).wf(),
{
    let rec = SleepM { deadline: deadline_of(m.now, dur), ready: false, waker: None };
    let m1 = sleep_t(m, dur);
    assert forall|u: usize| u < m1.tasks.len() implies m1.tasks[u as int].refs >= m1.holders(
        u,
    ) by {
        lemma_count_w_push(m.sleeps, rec, u);
    };
}

pub proof fn lemma_install_wf(m: Model, s: usize, t: usize)
    requires
        m.wf(),
        s < m.sleeps.len(),
        t < m.tasks.len(),
        !m.sleeps[s as int].ready,
    ensures
        install_t(m, s, t).wf(),
{
    let m1 = clone_t(m, t);
    lemma_clone_wf(m, t);
    let displaced = m1.sleeps[s as int].waker;
    let rec = SleepM {
        waker: Some(RawWakerExtended { task: t, owned: true }),
        ..m1.sleeps[s as int]
    };
    let m2 = Model { sleeps: m1.sleeps.update(s as int, rec), ..m1 };
    assert forall|u: usize| u < m2.tasks.len() implies m2.tasks[u as int].refs >= m2.holders(
        u,
    ) by {
        lemma_count_w_update(m1.sleeps, s as int, rec, u);
    };
    assert(m2.wf());
    match displaced {
        None => {}
        Some(d) => {
            lemma_count_w_update(m1.sleeps, s as int, rec, d.task);
            assert(m2.tasks[d.task as int].refs > m2.holders(d.task));
            lemma_drop_wf(m2, d.task);
        }
    }
}

// ---------------------------------------------------------------------------
// Polling and the run loop
// ---------------------------------------------------------------------------

/// Polling one computation of task `t`: work steps run and append their
/// tags to the log until the program either ends (`None`: completed) or
/// reaches a pause whose sleep is still pending, in which case a wake
/// handle is installed there and the computation is handed back unchanged
/// but parked (`Some`). Arriving at a pause for the first time constructs
/// its sleep record.
pub open spec fn poll_t(m: Model, t: usize, c: CompM) -> (Model, Option<CompM>)
    decreases c.steps.len() - c.pc,
{
    if !(0 <= c.pc < c.steps.len()) {
        (m, None)
    } else {
        match c.steps[c.pc] {
            Step::Work(tag) => poll_t(
                Model { log: m.log.push(tag), ..m },
                t,
                CompM { pc: c.pc + 1, waiting: None, ..c },
            ),
            Step::Pause(dur) => match c.waiting {
                None => {
                    let sid = m.sleeps.len() as usize;
                    let m1 = sleep_t(m, dur);
                    (install_t(m1, sid, t), Some(CompM { waiting: Some(sid), ..c }))
                },
                Some(sid) => {
                    if m.sleeps[sid as int].ready {
                        poll_t(m, t, CompM { pc: c.pc + 1, waiting: None, ..c })
                    } else {
                        (install_t(m, sid, t), Some(c))
                    }
                },
            },
        }
    }
}

/// One iteration of the executor's run loop: dequeue the front task; if
/// its slot is empty (completed, or spuriously woken), just release the
/// dequeued reference; otherwise take the computation out, poll it, put it
/// back if it suspended or mark the task done if it finished, and release
/// the dequeued reference.
pub open spec fn step_t(m: Model) -> Model
    recommends
        m.queue.len() > 0,
{
    let t = m.queue[0];
    let m0 = Model { queue: m.queue.remove(0), ..m };
    let tk = m0.tasks[t as int];
    match tk.slot {
        None => drop_t(m0, t),
        Some(c) => {
            let polls = if tk.polls < u64::MAX { tk.polls + 1 } else { tk.polls };
            let m1 = with_task(m0, t, TaskM { slot: None, polls, ..tk });
            let pr = poll_t(m1, t, c);
            let m3 = match pr.1 {
                Some(c2) => with_task(
                    pr.0,
                    t,
                    TaskM { slot: Some(c2), ..pr.0.tasks[t as int] },
                ),
                None => with_task(pr.0, t, TaskM { done: true, ..pr.0.tasks[t as int] }),
            };
            drop_t(m3, t)
        },
    }
}

/// The run loop, driven by explicit fuel: since polling never enqueues,
/// fuel equal to the queue's length drains it completely.
pub open spec fn run_n(m: Model, fuel: nat) -> Model
    decreases fuel,
{
    if fuel == 0 || m.queue.len() == 0 {
        m
    } else {
        run_n(step_t(m), (fuel - 1) as nat)
    }
}

/// What installing a wake handle does to the rest of the state: the
/// invariant is preserved, the queue, clock and log are untouched, and
/// every task keeps its margin of references over holders.
pub proof fn lemma_install_props(m: Model, s: usize, t: usize)
    requires
        m.wf(),
        s < m.sleeps.len(),
        t < m.tasks.len(),
        !m.sleeps[s as int].ready,
    ensures
        ({
            let mi = install_t(m, s, t);
            &&& mi.wf()
            &&& mi.queue == m.queue
            &&& mi.now == m.now
            &&& mi.spawner_live == m.spawner_live
            &&& mi.log == m.log
            &&& mi.tasks.len() == m.tasks.len()
            &&& mi.sleeps.len() == m.sleeps.len()
            &&& forall|u: usize|
                u < m.tasks.len() ==> (#[trigger] mi.tasks[u as int]).refs - mi.holders(u)
                    == m.tasks[u as int].refs - m.holders(u)
            &&& forall|u: int|
                0 <= u < m.tasks.len() ==> (#[trigger] mi.tasks[u].refs)
                    <= m.tasks[u].refs + 1
            &&& forall|u: int|
                0 <= u < m.tasks.len() && u != t ==> (#[trigger] mi.tasks[u].refs)
                    <= m.tasks[u].refs
            &&& forall|u: int|
                0 <= u < m.tasks.len() ==> ((#[trigger] mi.tasks[u].slot) == m.tasks[u].slot
                    || mi.tasks[u].slot is None)
            &&& forall|u: int|
                0 <= u < m.tasks.len() ==> (#[trigger] mi.tasks[u].done) == m.tasks[u].done
            &&& forall|u: int|
                0 <= u < m.tasks.len() ==> (#[trigger] mi.tasks[u].polls) == m.tasks[u].polls
            &&& forall|i: int|
                0 <= i < m.sleeps.len() ==> (#[trigger] mi.sleeps[i].ready)
                    == m.sleeps[i].ready
            &&& forall|i: int|
                0 <= i < m.sleeps.len() ==> (#[trigger] mi.sleeps[i].deadline)
                    == m.sleeps[i].deadline
        }),
{
    lemma_install_wf(m, s, t);
    let m1 = clone_t(m, t);
    let displaced = m1.sleeps[s as int].waker;
    let rec = SleepM {
        waker: Some(RawWakerExtended { task: t, owned: true }),
        ..m1.sleeps[s as int]
    };
    let m2 = Model { sleeps: m1.sleeps.update(s as int, rec), ..m1 };
    let mi = install_t(m, s, t);
    assert forall|u: usize| u < m.tasks.len() implies (#[trigger] mi.tasks[u as int]).refs
        - mi.holders(u) == m.tasks[u as int].refs - m.holders(u) by {
        lemma_count_w_update(m1.sleeps, s as int, rec, u);
    };
    assert forall|u: int| 0 <= u < m.tasks.len() && u != t implies (#[trigger] mi.tasks[u].refs)
        <= m.tasks[u].refs by {
        lemma_count_w_update(m1.sleeps, s as int, rec, u as usize);
    };
}

/// What polling does to the rest of the state: the invariant is preserved,
/// the ready queue is untouched (polling never enqueues), every task keeps
/// its margin of references over holders, completion flags and poll
/// counters are untouched, ready sleeps stay ready, and a suspended result
/// is a well-formed computation parked at a pause.
pub proof fn lemma_poll_wf(m: Model, t: usize, c: CompM)
    requires
        m.wf(),
        t < m.tasks.len(),
        Model::comp_wf(c, m.sleeps.len() as int),
        m.sleeps.len() < usize::MAX,
    ensures
        ({
            let pr = poll_t(m, t, c);
            &&& pr.0.wf()
            &&& pr.0.queue == m.queue
            &&& pr.0.now == m.now
            &&& pr.0.spawner_live == m.spawner_live
            &&& pr.0.tasks.len() == m.tasks.len()
            &&& m.sleeps.len() <= pr.0.sleeps.len() <= m.sleeps.len() + 1
            &&& forall|u: usize|
                u < m.tasks.len() ==> (#[trigger] pr.0.tasks[u as int]).refs - pr.0.holders(u)
                    == m.tasks[u as int].refs - m.holders(u)
            &&& forall|u: int|
                0 <= u < m.tasks.len() ==> (#[trigger] pr.0.tasks[u].refs)
                    <= m.tasks[u].refs + 1
            &&& forall|u: int|
                0 <= u < m.tasks.len() && u != t ==> (#[trigger] pr.0.tasks[u].refs)
                    <= m.tasks[u].refs
            &&& forall|u: int|
                0 <= u < m.tasks.len() ==> ((#[trigger] pr.0.tasks[u].slot) == m.tasks[u].slot
                    || pr.0.tasks[u].slot is None)
            &&& forall|u: int|
                0 <= u < m.tasks.len() ==> (#[trigger] pr.0.tasks[u].done) == m.tasks[u].done
            &&& forall|u: int|
                0 <= u < m.tasks.len() ==> (#[trigger] pr.0.tasks[u].polls) == m.tasks[u].polls
            &&& forall|i: int|
                0 <= i < m.sleeps.len() && (#[trigger] m.sleeps[i].ready)
                    ==> pr.0.sleeps[i].ready
            &&& forall|i: int|
                0 <= i < m.sleeps.len() ==> (#[trigger] pr.0.sleeps[i].deadline)
                    == m.sleeps[i].deadline
            &&& match pr.1 {
                Some(c2) => Model::comp_wf(c2, pr.0.sleeps.len() as int) && c2.steps == c.steps,
                None => true,
            }
        }),
    decreases c.steps.len() - c.pc,
{
    if !(0 <= c.pc < c.steps.len()) {
    } else {
        match c.steps[c.pc] {
            Step::Work(_tag) => {
                let mw = Model { log: m.log.push(c.steps[c.pc]->Work_0), ..m };
                lemma_poll_wf(mw, t, CompM { pc: c.pc + 1, waiting: None, ..c });
            },
            Step::Pause(dur) => match c.waiting {
                None => {
                    let sid = m.sleeps.len() as usize;
                    let m1 = sleep_t(m, dur);
                    lemma_sleep_wf(m, dur);
                    assert forall|u: usize| u < m1.tasks.len() implies m1.holders(u)
                        == m.holders(u) by {
                        lemma_count_w_push(
                            m.sleeps,
                            SleepM { deadline: deadline_of(m.now, dur), ready: false, waker: None },
                            u,
                        );
                    };
                    lemma_install_props(m1, sid, t);
                },
                Some(sid) => {
                    if m.sleeps[sid as int].ready {
                        lemma_poll_wf(m, t, CompM { pc: c.pc + 1, waiting: None, ..c });
                    } else {
                        lemma_install_props(m, sid, t);
                    }
                },
            },
        }
    }
}

} // verus!
