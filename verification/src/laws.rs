//! The laws of the runtime: properties that hold across several
//! operations, stated over the model transitions and proved once and for
//! all.

use vstd::prelude::*;
use crate::model::{
    Model, TaskM, CompM, count_q, clone_t, drop_t, wake_owned_t, wake_ref_t, with_task, poll_t,
    step_t, run_n, lemma_count_q_push, lemma_count_q_remove_first, lemma_clone_wf, lemma_drop_wf,
    lemma_poll_wf,
};
use crate::runtime::Step;

verus! {

// ---------------------------------------------------------------------------
// Waking delivers exactly once
// ---------------------------------------------------------------------------

/// One wake call — whether it consumes its handle or goes by reference —
/// adds exactly one delivery of its task to the ready queue, never zero
/// and never more, and no delivery of any other task.
pub proof fn lemma_wake_delivers_exactly_once(m: Model, t: usize)
    ensures
        count_q(wake_owned_t(m, t).queue, t) == count_q(m.queue, t) + 1,
        count_q(wake_ref_t(m, t).queue, t) == count_q(m.queue, t) + 1,
        forall|u: usize|
            u != t ==> count_q(wake_owned_t(m, t).queue, u) == count_q(m.queue, u),
        forall|u: usize| u != t ==> count_q(wake_ref_t(m, t).queue, u) == count_q(m.queue, u),
{
    assert forall|u: usize| true implies count_q(m.queue.push(t), u) == count_q(m.queue, u)
        + if u == t { 1nat } else { 0nat } by {
        lemma_count_q_push(m.queue, t, u);
    };
}

// ---------------------------------------------------------------------------
// The suspension primitive and the clock
// ---------------------------------------------------------------------------

/// Before its deadline has been reached on the logical clock, a suspension
/// primitive is never ready: polling it yields "not ready".
pub proof fn lemma_not_ready_before_deadline(m: Model, s: int)
    requires
        m.wf(),
        0 <= s < m.sleeps.len(),
        m.now < m.sleeps[s].deadline,
    ensures
        !m.sleeps[s].ready,
{
}

// ---------------------------------------------------------------------------
// Handle clones and releases balance out
// ---------------------------------------------------------------------------

/// `n` successive clones of a wake handle of task `t`.
pub open spec fn clone_n(m: Model, t: usize, n: nat) -> Model
    decreases n,
{
    if n == 0 {
        m
    } else {
        clone_t(clone_n(m, t, (n - 1) as nat), t)
    }
}

/// `n` successive releases of owned wake handles of task `t`.
pub open spec fn drop_n(m: Model, t: usize, n: nat) -> Model
    decreases n,
{
    if n == 0 {
        m
    } else {
        drop_t(drop_n(m, t, (n - 1) as nat), t)
    }
}

pub proof fn lemma_clone_n_props(m: Model, t: usize, n: nat)
    requires
        m.wf(),
        t < m.tasks.len(),
    ensures
        ({
            let mc = clone_n(m, t, n);
            &&& mc.wf()
            &&& mc == Model {
                tasks: m.tasks.update(
                    t as int,
                    TaskM { refs: m.tasks[t as int].refs + n, ..m.tasks[t as int] },
                ),
                ..m
            }
        }),
    decreases n,
{
    if n == 0 {
        assert(clone_n(m, t, n) =~= Model {
            tasks: m.tasks.update(
                t as int,
                TaskM { refs: m.tasks[t as int].refs + n, ..m.tasks[t as int] },
            ),
            ..m
        });
    } else {
        lemma_clone_n_props(m, t, (n - 1) as nat);
        lemma_clone_wf(clone_n(m, t, (n - 1) as nat), t);
        assert(clone_n(m, t, n) =~= Model {
            tasks: m.tasks.update(
                t as int,
                TaskM { refs: m.tasks[t as int].refs + n, ..m.tasks[t as int] },
            ),
            ..m
        });
    }
}

pub proof fn lemma_drop_n_props(m: Model, t: usize, n: nat)
    requires
        m.wf(),
        t < m.tasks.len(),
        m.tasks[t as int].refs >= m.holders(t) + n,
    ensures
        ({
            let mf = drop_n(m, t, n);
            &&& mf.wf()
            &&& mf.tasks.len() == m.tasks.len()
            &&& mf.queue == m.queue
            &&& mf.sleeps == m.sleeps
            &&& mf.tasks[t as int].refs == m.tasks[t as int].refs - n
            &&& mf.tasks[t as int].refs >= mf.holders(t)
            &&& forall|u: int|
                0 <= u < m.tasks.len() && u != t ==> (#[trigger] mf.tasks[u]) == m.tasks[u]
            &&& (n > 0 && m.tasks[t as int].refs == n && m.holders(t) == 0)
                ==> mf.tasks[t as int].slot is None
        }),
    decreases n,
{
    if n > 0 {
        lemma_drop_n_props(m, t, (n - 1) as nat);
        lemma_drop_wf(drop_n(m, t, (n - 1) as nat), t);
    }
}

/// Cloning a wake handle `n` times and then independently releasing all
/// `n + 1` outstanding handles — the original plus the clones — gives
/// every taken unit of the reference count back exactly once: the count
/// ends exactly one below where it started, it never falls below the
/// number of live holders inside the runtime, and when those handles were
/// the only holders it reaches exactly zero, at which point — and not
/// before — the task's resources are released.
pub proof fn lemma_clone_then_drop_balanced(m: Model, t: usize, n: nat)
    requires
        m.wf(),
        t < m.tasks.len(),
        m.tasks[t as int].refs > m.holders(t),
    ensures
        ({
            let mc = clone_n(m, t, n);
            let mf = drop_n(mc, t, n + 1);
            &&& mc.wf()
            &&& mc.tasks[t as int].refs == m.tasks[t as int].refs + n
            &&& mf.wf()
            &&& mf.tasks[t as int].refs == m.tasks[t as int].refs - 1
            &&& mf.tasks[t as int].refs >= mf.holders(t)
            &&& (m.tasks[t as int].refs == 1 && m.holders(t) == 0) ==> (
                mf.tasks[t as int].refs == 0 && mf.tasks[t as int].slot is None)
        }),
{
    lemma_clone_n_props(m, t, n);
    let mc = clone_n(m, t, n);
    assert(mc.holders(t) == m.holders(t));
    lemma_drop_n_props(mc, t, n + 1);
}

// ---------------------------------------------------------------------------
// Mutual exclusion of polling
// ---------------------------------------------------------------------------

/// A dequeued task whose computation slot is empty — one that completed
/// earlier, or whose computation is held elsewhere — is never polled
/// again: the executor only releases the reference that the queue entry
/// held. Together with the slot being emptied before every poll, this is
/// the discipline that keeps one computation from being run from two
/// places.
pub proof fn lemma_empty_slot_skipped(m: Model)
    requires
        m.queue.len() > 0,
        m.queue[0] < m.tasks.len(),
        m.tasks[m.queue[0] as int].slot is None,
    ensures
        step_t(m) == drop_t(Model { queue: m.queue.remove(0), ..m }, m.queue[0]),
        step_t(m).tasks[m.queue[0] as int].polls == m.tasks[m.queue[0] as int].polls,
{
}

// ---------------------------------------------------------------------------
// One iteration of the run loop, from the outside
// ---------------------------------------------------------------------------

/// What one iteration of the run loop does to the rest of the state: the
/// invariant is preserved, exactly the front entry leaves the queue and
/// nothing enters it, reference counts never grow, only the dequeued task
/// can be polled or completed, and ready sleeps stay ready under their old
/// deadlines.
pub proof fn lemma_step_props(m: Model)
    requires
        m.wf(),
        m.queue.len() > 0,
        m.sleeps.len() < usize::MAX,
    ensures
        ({
            let t = m.queue[0];
            let m2 = step_t(m);
            &&& m2.wf()
            &&& m2.queue == m.queue.remove(0)
            &&& m2.tasks.len() == m.tasks.len()
            &&& m.sleeps.len() <= m2.sleeps.len() <= m.sleeps.len() + 1
            &&& m2.now == m.now
            &&& m2.spawner_live == m.spawner_live
            &&& forall|u: int|
                0 <= u < m.tasks.len() ==> (#[trigger] m2.tasks[u].refs) <= m.tasks[u].refs
            &&& forall|u: int|
                0 <= u < m.tasks.len() && (#[trigger] m.tasks[u].done) ==> m2.tasks[u].done
            &&& forall|u: int|
                0 <= u < m.tasks.len() && u != t ==> (#[trigger] m2.tasks[u].done)
                    == m.tasks[u].done
            &&& forall|u: int|
                0 <= u < m.tasks.len() && u != t ==> (#[trigger] m2.tasks[u].polls)
                    == m.tasks[u].polls
            &&& m2.tasks[t as int].polls <= m.tasks[t as int].polls + 1
            &&& forall|s: int|
                0 <= s < m.sleeps.len() && (#[trigger] m.sleeps[s].ready) ==> m2.sleeps[s].ready
            &&& forall|s: int|
                0 <= s < m.sleeps.len() ==> (#[trigger] m2.sleeps[s].deadline)
                    == m.sleeps[s].deadline
        }),
{
    let t = m.queue[0];
    let m0 = Model { queue: m.queue.remove(0), ..m };
    assert forall|i: int| 0 <= i < m0.queue.len() implies (#[trigger] m0.queue[i])
        < m0.tasks.len() by {
        assert(m0.queue[i] == m.queue[i + 1]);
    };
    assert forall|u: usize| u < m0.tasks.len() implies m0.tasks[u as int].refs >= m0.holders(
        u,
    ) by {
        lemma_count_q_remove_first(m.queue, u);
    };
    assert(m0.wf());
    lemma_count_q_remove_first(m.queue, t);
    assert(m0.tasks[t as int].refs > m0.holders(t));
    let tk = m0.tasks[t as int];
    match tk.slot {
        None => {
            lemma_drop_wf(m0, t);
        },
        Some(c) => {
            let polls = if tk.polls < u64::MAX {
                tk.polls + 1
            } else {
                tk.polls
            };
            let m1 = with_task(m0, t, TaskM { slot: None, polls, ..tk });
            assert(m1.wf());
            lemma_poll_wf(m1, t, c);
            let pr = poll_t(m1, t, c);
            let m3 = match pr.1 {
                Some(c2) => with_task(pr.0, t, TaskM { slot: Some(c2), ..pr.0.tasks[t as int] }),
                None => with_task(pr.0, t, TaskM { done: true, ..pr.0.tasks[t as int] }),
            };
            assert(m3.wf());
            assert(m3.tasks[t as int].refs > m3.holders(t));
            lemma_drop_wf(m3, t);
        },
    }
}

/// Once a suspension primitive is ready, any amount of further running
/// leaves it ready, under its old deadline: readiness is permanent.
pub proof fn lemma_run_keeps_ready(m: Model, fuel: nat, s: int)
    requires
        m.wf(),
        m.sleeps.len() + m.queue.len() <= usize::MAX,
        0 <= s < m.sleeps.len(),
        m.sleeps[s].ready,
    ensures
        ({
            let mf = run_n(m, fuel);
            &&& mf.wf()
            &&& mf.sleeps[s].ready
            &&& mf.sleeps[s].deadline == m.sleeps[s].deadline
        }),
    decreases fuel,
{
    if fuel == 0 || m.queue.len() == 0 {
    } else {
        lemma_step_props(m);
        lemma_run_keeps_ready(step_t(m), (fuel - 1) as nat, s);
    }
}

// ---------------------------------------------------------------------------
// Computations that never suspend run to completion
// ---------------------------------------------------------------------------

/// No pause step remains in the computation's program: polling it can
/// only drive it straight to completion.
pub open spec fn never_suspends(c: CompM) -> bool {
    forall|i: int| c.pc <= i < c.steps.len() ==> !((#[trigger] c.steps[i]) is Pause)
}

/// Polling a computation with no pause left completes it, touching
/// nothing but the log.
pub proof fn lemma_poll_no_pause(m: Model, t: usize, c: CompM)
    requires
        0 <= c.pc,
        never_suspends(c),
    ensures
        ({
            let pr = poll_t(m, t, c);
            &&& pr.1 is None
            &&& pr.0 == Model { log: pr.0.log, ..m }
        }),
    decreases c.steps.len() - c.pc,
{
    if !(0 <= c.pc < c.steps.len()) {
        assert(poll_t(m, t, c).0 =~= Model { log: poll_t(m, t, c).0.log, ..m });
    } else {
        match c.steps[c.pc] {
            Step::Work(tag) => {
                let mw = Model { log: m.log.push(tag), ..m };
                lemma_poll_no_pause(mw, t, CompM { pc: c.pc + 1, waiting: None, ..c });
                assert(poll_t(m, t, c).0 =~= Model { log: poll_t(m, t, c).0.log, ..m });
            },
            Step::Pause(_dur) => {
                assert(c.steps[c.pc] is Pause);
            },
        }
    }
}

/// When every computation in the runtime suspends never, the run loop
/// drives each spawned task to completion: afterwards the queue is empty,
/// every reference has been given back, and — once the spawner has been
/// dropped — the queue is permanently closed. The premise that reference
/// counts equal the queue occurrences says that the queue entries are the
/// only holders: no outside wake handle is outstanding.
pub proof fn lemma_run_completes_immediate(m: Model)
    requires
        m.wf(),
        m.tasks.len() <= usize::MAX,
        forall|u: usize|
            u < m.tasks.len() ==> (#[trigger] m.tasks[u as int].refs) == count_q(m.queue, u),
        forall|u: int|
            0 <= u < m.tasks.len() ==> match #[trigger] m.tasks[u].slot {
                Some(c) => never_suspends(c),
                None => true,
            },
    ensures
        ({
            let mf = run_n(m, m.queue.len());
            &&& mf.wf()
            &&& mf.queue.len() == 0
            &&& forall|u: int| 0 <= u < m.tasks.len() ==> (#[trigger] mf.tasks[u].refs) == 0
            &&& forall|u: int|
                0 <= u < m.tasks.len() && (#[trigger] m.tasks[u].done) ==> mf.tasks[u].done
            &&& forall|u: int|
                0 <= u < m.tasks.len() && (#[trigger] m.tasks[u].slot) is Some
                    ==> mf.tasks[u].done
            &&& !m.spawner_live ==> mf.closed()
        }),
    decreases m.queue.len(),
{
    if m.queue.len() == 0 {
        assert forall|u: int| 0 <= u < m.tasks.len() implies (#[trigger] m.tasks[u].refs)
            == 0 by {
            assert(m.tasks[u as usize as int].refs == count_q(m.queue, u as usize));
            assert(count_q(m.queue, u as usize) == 0);
        };
        assert forall|u: int|
            0 <= u < m.tasks.len() implies !((#[trigger] m.tasks[u].slot) is Some) by {
            assert(m.tasks[u].refs == 0);
        };
    } else {
        let t = m.queue[0];
        let m0 = Model { queue: m.queue.remove(0), ..m };
        assert forall|i: int| 0 <= i < m0.queue.len() implies (#[trigger] m0.queue[i])
            < m0.tasks.len() by {
            assert(m0.queue[i] == m.queue[i + 1]);
        };
        assert forall|u: usize| u < m0.tasks.len() implies m0.tasks[u as int].refs >= m0.holders(
            u,
        ) by {
            lemma_count_q_remove_first(m.queue, u);
        };
        assert(m0.wf());
        lemma_count_q_remove_first(m.queue, t);
        assert(m0.tasks[t as int].refs > m0.holders(t));
        let tk = m0.tasks[t as int];
        let m2 = step_t(m);
        match tk.slot {
            None => {
                lemma_drop_wf(m0, t);
            },
            Some(c) => {
                let polls = if tk.polls < u64::MAX {
                    tk.polls + 1
                } else {
                    tk.polls
                };
                let m1 = with_task(m0, t, TaskM { slot: None, polls, ..tk });
                assert(m1.wf());
                lemma_poll_no_pause(m1, t, c);
                let pr = poll_t(m1, t, c);
                let m3 = with_task(pr.0, t, TaskM { done: true, ..pr.0.tasks[t as int] });
                assert(m3.wf());
                assert(m3.tasks[t as int].refs > m3.holders(t));
                lemma_drop_wf(m3, t);
                assert(m2.tasks[t as int].done);
            },
        }
        assert(m2.wf());
        assert(m2.queue == m.queue.remove(0));
        assert(m2.tasks.len() == m.tasks.len());
        assert(forall|u: int|
            0 <= u < m.tasks.len() && u != t ==> (#[trigger] m2.tasks[u]) == m.tasks[u]);
        assert forall|u: usize| u < m2.tasks.len() implies (#[trigger] m2.tasks[u as int].refs)
            == count_q(m2.queue, u) by {
            lemma_count_q_remove_first(m.queue, u);
        };
        assert forall|u: int|
            0 <= u < m2.tasks.len() implies match #[trigger] m2.tasks[u].slot {
            Some(c) => never_suspends(c),
            None => true,
        } by {
            if u != t {
                assert(m2.tasks[u] == m.tasks[u]);
            }
        };
        lemma_run_completes_immediate(m2);
        assert(run_n(m, m.queue.len()) == run_n(m2, m2.queue.len()));
        let mf = run_n(m, m.queue.len());
        assert forall|u: int| 0 <= u < m.tasks.len() implies (#[trigger] mf.tasks[u].refs)
            == 0 by {
            assert(run_n(m2, m2.queue.len()).tasks[u].refs == 0);
        };
        assert forall|u: int|
            0 <= u < m.tasks.len() && (#[trigger] m.tasks[u].done) implies mf.tasks[u].done by {
            if u != t {
                assert(m2.tasks[u] == m.tasks[u]);
            } else {
                assert(m2.tasks[u].done);
            }
        };
        assert forall|u: int|
            0 <= u < m.tasks.len() && (#[trigger] m.tasks[u].slot) is Some
            implies mf.tasks[u].done by {
            if u != t {
                assert(m2.tasks[u] == m.tasks[u]);
            } else {
                assert(m2.tasks[t as int].done);
            }
        };
    }
}

} // verus!
