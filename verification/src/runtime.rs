//! Executor, spawner, and tasks.
//!
//! The executor owns the whole runtime state — task table, FIFO ready
//! queue, sleep records, logical clock — and consumes the queue one task
//! at a time. The spawner is the producer capability for the same queue.
//! Every operation's contract names the model transition it performs, so
//! a caller reasons about the runtime purely over `Model`.

use vstd::prelude::*;
use crate::future::{Sleep, sleep};
use crate::waker::{RawWakerExtended, waker_ref};
use crate::model::{
    Model, SleepM, TaskM, init_model, spawn_t, close_t, advance_t, clone_t, install_t, poll_t,
    step_t, run_n, with_task, lemma_spawn_wf, lemma_advance_wf, lemma_tasks_view_push,
    lemma_tasks_view_update, lemma_sleeps_view_update, lemma_count_w_update,
    lemma_count_q_remove_first, lemma_install_props, lemma_poll_wf,
};

verus! {

/// One step of a suspendable computation: either a unit of work that
/// appends its tag to the runtime's log, or a pause of the given duration
/// on the logical clock.
#[derive(Clone, Copy)]
pub enum Step {
    Work(u64),
    Pause(u64),
}

/// A suspendable computation: a program of steps, the index of the next
/// step to run, and the sleep record it is currently parked on, if any.
pub struct Computation {
    pub steps: Vec<Step>,
    pub pc: usize,
    pub waiting: Option<usize>,
}

/// One task: an optional computation slot (absent while being polled or
/// after completion), the shared reference count, a completion flag, and a
/// poll counter.
pub struct Task {
    pub slot: Option<Computation>,
    pub refs: u64,
    pub done: bool,
    pub polls: u64,
}

/// The consumer side of the runtime: the task table, the FIFO ready queue
/// of task ids, the sleep records, the logical clock, whether the spawner
/// endpoint is still alive, and the log of completed work tags.
pub struct Executor {
    pub tasks: Vec<Task>,
    pub queue: Vec<usize>,
    pub sleeps: Vec<Sleep>,
    pub now: u64,
    pub spawner_live: bool,
    pub log: Vec<u64>,
}

/// The producer capability: the witness that the spawning endpoint of the
/// ready queue has not been dropped yet. Dropping it — through
/// [`Spawner::close`], which consumes it — is the only way to let the
/// executor's run loop terminate for good.
pub struct Spawner {}

impl View for Executor {
    type V = Model;

    open spec fn view(&self) -> Model {
        Model {
            tasks: crate::model::tasks_view(self.tasks@),
            queue: self.queue@,
            sleeps: crate::model::sleeps_view(self.sleeps@),
            now: self.now as int,
            spawner_live: self.spawner_live,
            log: self.log@,
        }
    }
}

/// Returns a matched executor/spawner pair sharing one empty ready queue.
pub fn new_executor_and_spawner() -> (r: (Executor, Spawner))
    ensures
        r.0@ == init_model(),
        r.0@.wf(),
{
    let ex = Executor {
        tasks: Vec::new(),
        queue: Vec::new(),
        sleeps: Vec::new(),
        now: 0,
        spawner_live: true,
        log: Vec::new(),
    };
    proof {
        assert(ex@.tasks =~= init_model().tasks);
        assert(ex@.sleeps =~= init_model().sleeps);
        assert(ex@ =~= init_model());
    }
    (ex, Spawner {})
}

impl Spawner {
    /// Wraps `steps` as a fresh suspendable computation, allocates a new
    /// task around it holding one shared reference, and immediately
    /// enqueues that task as ready. The reference is held by the queue
    /// entry. Enqueuing cannot fail here: the consumer endpoint is the
    /// executor itself, which the caller is holding.
    pub fn spawn(&self, ex: &mut Executor, steps: Vec<Step>)
        requires
            old(ex)@.wf(),
            old(ex)@.spawner_live,
            old(ex)@.tasks.len() < usize::MAX,
        ensures
            final(ex)@ == spawn_t(old(ex)@, steps@),
            final(ex)@.wf(),
    {
        let id = ex.tasks.len();
        let comp = Computation { steps, pc: 0, waiting: None };
        let task = Task { slot: Some(comp), refs: 1, done: false, polls: 0 };
        ex.tasks.push(task);
        ex.queue.push(id);
        proof {
            lemma_tasks_view_push(old(ex).tasks@, ex.tasks@[id as int]);
            assert(ex@ =~= spawn_t(old(ex)@, steps@));
            lemma_spawn_wf(old(ex)@, steps@);
        }
    }

    /// Drops the spawning endpoint. After this no new task can enter the
    /// queue from outside; once every task has been released as well, the
    /// queue counts as closed and the run loop will not be woken again.
    pub fn close(self, ex: &mut Executor)
        requires
            old(ex)@.wf(),
        ensures
            final(ex)@ == close_t(old(ex)@),
            final(ex)@.wf(),
    {
        ex.spawner_live = false;
        proof {
            assert(ex@ =~= close_t(old(ex)@));
        }
    }
}

impl Executor {
    /// Installs a fresh owned wake handle for task `t` into the pending
    /// sleep record `sid`, releasing whatever handle it displaces.
    fn install(&mut self, sid: usize, t: usize)
        requires
            old(self)@.wf(),
            sid < old(self)@.sleeps.len(),
            t < old(self)@.tasks.len(),
            !old(self)@.sleeps[sid as int].ready,
            old(self)@.tasks[t as int].refs < u64::MAX,
        ensures
            final(self)@ == install_t(old(self)@, sid, t),
            final(self)@.wf(),
    {
        let b = waker_ref(t);
        let h = b.clone(self);
        let ghost m1 = clone_t(old(self)@, t);
        let ghost sleeps1 = self.sleeps@;
        let pr = self.sleeps[sid].poll(h);
        proof {
            assert(h == RawWakerExtended { task: t, owned: true });
            assert(crate::model::sleeps_view(sleeps1) == m1.sleeps);
            assert(self.sleeps@ =~= sleeps1.update(sid as int, self.sleeps@[sid as int]));
            lemma_sleeps_view_update(sleeps1, sid as int, self.sleeps@[sid as int]);
            let rec = SleepM {
                waker: Some(RawWakerExtended { task: t, owned: true }),
                ..m1.sleeps[sid as int]
            };
            let m2 = Model { sleeps: m1.sleeps.update(sid as int, rec), ..m1 };
            assert(self@ =~= m2);
            assert forall|u: usize|
                u < m2.tasks.len() implies m2.tasks[u as int].refs >= m2.holders(u) by {
                lemma_count_w_update(m1.sleeps, sid as int, rec, u);
            };
            assert(m2.wf());
            lemma_install_props(old(self)@, sid, t);
        }
        match pr.1 {
            None => {
                proof {
                    assert(self@ =~= install_t(old(self)@, sid, t));
                }
            }
            Some(d) => {
                proof {
                    let rec = SleepM {
                        waker: Some(RawWakerExtended { task: t, owned: true }),
                        ..m1.sleeps[sid as int]
                    };
                    lemma_count_w_update(m1.sleeps, sid as int, rec, d.task);
                }
                d.drop(self);
                proof {
                    assert(self@ =~= install_t(old(self)@, sid, t));
                }
            }
        }
    }

    /// Drives one computation of task `t` until it completes or suspends,
    /// exactly as `poll_t` describes. The computation is not in the task's
    /// slot while this runs; a suspended computation is handed back to the
    /// caller to be stored again.
    fn poll_comp(&mut self, t: usize, comp: Computation) -> (res: Option<Computation>)
        requires
            old(self)@.wf(),
            t < old(self)@.tasks.len(),
            Model::comp_wf(comp@, old(self)@.sleeps.len() as int),
            old(self)@.tasks[t as int].refs < u64::MAX,
            old(self)@.sleeps.len() < usize::MAX,
        ensures
            final(self)@ == poll_t(old(self)@, t, comp@).0,
            (match res {
                Some(c2) => poll_t(old(self)@, t, comp@).1 == Some(c2@),
                None => poll_t(old(self)@, t, comp@).1 is None,
            }),
        decreases comp.steps.len() - comp.pc,
    {
        if comp.pc >= comp.steps.len() {
            return None;
        }
        match comp.steps[comp.pc] {
            Step::Work(tag) => {
                self.log.push(tag);
                proof {
                    assert(self@ =~= Model { log: old(self)@.log.push(tag), ..old(self)@ });
                }
                let c2 = Computation { steps: comp.steps, pc: comp.pc + 1, waiting: None };
                self.poll_comp(t, c2)
            }
            Step::Pause(dur) => {
                match comp.waiting {
                    None => {
                        let sid = sleep(self, dur);
                        self.install(sid, t);
                        Some(Computation { steps: comp.steps, pc: comp.pc, waiting: Some(sid) })
                    }
                    Some(sid) => {
                        if self.sleeps[sid].is_ready {
                            let c2 = Computation {
                                steps: comp.steps,
                                pc: comp.pc + 1,
                                waiting: None,
                            };
                            self.poll_comp(t, c2)
                        } else {
                            self.install(sid, t);
                            Some(comp)
                        }
                    }
                }
            }
        }
    }

    /// Consumes the ready queue until it is drained. Each dequeued task is
    /// polled once — unless its computation slot is empty, in which case it
    /// is skipped safely — and a suspended computation goes back into its
    /// slot, addressable by future wakes; the reference held by the
    /// dequeued entry is released either way. Polling never enqueues, so
    /// the loop terminates once the entries present at entry are consumed.
    pub fn run(&mut self)
        requires
            old(self)@.wf(),
            forall|u: int|
                0 <= u < old(self)@.tasks.len() ==> (#[trigger] old(self)@.tasks[u].refs)
                    < u64::MAX,
            old(self)@.sleeps.len() + old(self)@.queue.len() <= usize::MAX,
        ensures
            final(self)@ == run_n(old(self)@, old(self)@.queue.len()),
            final(self)@.wf(),
            final(self)@.queue.len() == 0,
    {
        while self.queue.len() > 0
            invariant
                self@.wf(),
                forall|u: int|
                    0 <= u < self@.tasks.len() ==> (#[trigger] self@.tasks[u].refs) < u64::MAX,
                self@.sleeps.len() + self@.queue.len() <= usize::MAX,
                run_n(self@, self@.queue.len()) == run_n(old(self)@, old(self)@.queue.len()),
            decreases self@.queue.len(),
        {
            let ghost m = self@;
            let t = self.queue.remove(0);
            let ghost m0 = Model { queue: m.queue.remove(0), ..m };
            proof {
                assert(t == m.queue[0]);
                assert(self@ =~= m0);
                assert forall|i: int| 0 <= i < m0.queue.len() implies (#[trigger] m0.queue[i])
                    < m0.tasks.len() by {
                    assert(m0.queue[i] == m.queue[i + 1]);
                };
                assert forall|u: usize|
                    u < m0.tasks.len() implies m0.tasks[u as int].refs >= m0.holders(u) by {
                    lemma_count_q_remove_first(m.queue, u);
                };
                assert(m0.wf());
                lemma_count_q_remove_first(m.queue, t);
                assert(m0.tasks[t as int].refs > m0.holders(t));
            }
            let ghost tasks0 = self.tasks@;
            let slot_opt = self.tasks[t].slot.take();
            match slot_opt {
                None => {
                    proof {
                        assert(self.tasks@ =~= tasks0);
                        assert(self@ =~= m0);
                    }
                    let popped = RawWakerExtended { task: t, owned: true };
                    popped.drop(self);
                    proof {
                        assert(self@ =~= step_t(m));
                    }
                }
                Some(comp) => {
                    let p = self.tasks[t].polls;
                    if p < u64::MAX {
                        self.tasks[t].polls = p + 1;
                    }
                    let ghost tk = m0.tasks[t as int];
                    let ghost polls = if tk.polls < u64::MAX {
                        tk.polls + 1
                    } else {
                        tk.polls
                    };
                    let ghost m1 = with_task(m0, t, TaskM { slot: None, polls, ..tk });
                    proof {
                        assert(self.tasks@ =~= tasks0.update(t as int, self.tasks@[t as int]));
                        lemma_tasks_view_update(tasks0, t as int, self.tasks@[t as int]);
                        assert(self@ =~= m1);
                        assert(m1.wf());
                        assert(Model::comp_wf(comp@, m1.sleeps.len() as int));
                    }
                    let res = self.poll_comp(t, comp);
                    let ghost pr = poll_t(m1, t, comp@);
                    proof {
                        lemma_poll_wf(m1, t, comp@);
                    }
                    let ghost tasks_mid = self.tasks@;
                    let ghost m3 = match pr.1 {
                        Some(c2) => with_task(
                            pr.0,
                            t,
                            TaskM { slot: Some(c2), ..pr.0.tasks[t as int] },
                        ),
                        None => with_task(pr.0, t, TaskM { done: true, ..pr.0.tasks[t as int] }),
                    };
                    match res {
                        Some(c2) => {
                            self.tasks[t].slot = Some(c2);
                        }
                        None => {
                            self.tasks[t].done = true;
                        }
                    }
                    proof {
                        assert(self.tasks@ =~= tasks_mid.update(t as int, self.tasks@[t as int]));
                        lemma_tasks_view_update(tasks_mid, t as int, self.tasks@[t as int]);
                        assert(self@ =~= m3);
                        assert(m3.wf());
                        assert(m3.tasks[t as int].refs > m3.holders(t));
                    }
                    let popped = RawWakerExtended { task: t, owned: true };
                    popped.drop(self);
                    proof {
                        assert(self@ =~= step_t(m));
                    }
                }
            }
            proof {
                assert(self@ == step_t(m));
                assert(self@.queue == m.queue.remove(0));
                assert(run_n(m, m.queue.len()) == run_n(self@, self@.queue.len()));
            }
        }
    }

    /// Advances the logical clock by `d` units. Real elapsed time is
    /// outside the model; a client maps it to calls of this method and of
    /// [`Executor::fire`].
    pub fn advance(&mut self, d: u64)
        requires
            old(self)@.wf(),
            old(self)@.now + d <= u64::MAX,
        ensures
            final(self)@ == advance_t(old(self)@, d),
            final(self)@.wf(),
    {
        self.now = self.now + d;
        proof {
            assert(self@ =~= advance_t(old(self)@, d));
            lemma_advance_wf(old(self)@, d);
        }
    }
}

} // verus!
