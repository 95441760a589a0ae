//! The wake-notification handle.
//!
//! A `RawWakerExtended` is the type-erased capability through which a
//! suspended task asks to be re-enqueued. It names the task it belongs to
//! and records whether it owns one unit of the task's reference count
//! (`owned`) or merely borrows a count held elsewhere (`!owned`). The
//! borrowed form is what the executor hands to a computation for the span
//! of one poll; every stored or long-lived handle is an owned clone.

use vstd::prelude::*;
use crate::runtime::Executor;
use crate::model::{
    clone_t, drop_t, wake_owned_t, wake_ref_t, lemma_clone_wf, lemma_drop_wf,
    lemma_wake_owned_wf, lemma_wake_ref_wf, lemma_tasks_view_update,
};

verus! {

/// A wake handle for one task.
///
/// `owned` distinguishes the two disciplines for the task's reference
/// count: an owned handle is responsible for exactly one decrement when it
/// is released, while a borrowed handle must be discarded without touching
/// the count.
pub struct RawWakerExtended {
    pub task: usize,
    pub owned: bool,
}

/// Builds a borrowed wake handle for `task`: a non-owning view that leaves
/// the task's reference count untouched and must never be released through
/// an owning path.
pub fn waker_ref(task: usize) -> (h: RawWakerExtended)
    ensures
        h.task == task,
        !h.owned,
{
    RawWakerExtended { task, owned: false }
}

/// The wake capability: anything that can ask for one task to be
/// re-enqueued, either by consuming itself or by reference. The suspension
/// machinery needs nothing else of a handle.
pub trait ArcWake: Sized {
    /// The task this value can wake.
    spec fn wake_target(&self) -> usize;

    /// Whether this value owns one unit of its task's reference count.
    spec fn wake_owns(&self) -> bool;

    /// Wake by consuming ownership: the handle's unit of the reference
    /// count moves into the fresh ready-queue entry, so the count itself
    /// is unchanged and the task is delivered to the consumer exactly
    /// once.
    fn wake(self, ex: &mut Executor)
        requires
            old(ex)@.wf(),
            self.wake_owns(),
            self.wake_target() < old(ex)@.tasks.len(),
            old(ex)@.tasks[self.wake_target() as int].refs > old(ex)@.holders(self.wake_target()),
        ensures
            final(ex)@ == wake_owned_t(old(ex)@, self.wake_target()),
            final(ex)@.wf(),
    ;

    /// Wake by reference: a fresh unit of the reference count is taken
    /// for the new ready-queue entry, and the handle itself is left
    /// untouched.
    fn wake_by_ref(&self, ex: &mut Executor)
        requires
            old(ex)@.wf(),
            self.wake_target() < old(ex)@.tasks.len(),
            old(ex)@.tasks[self.wake_target() as int].refs < u64::MAX,
        ensures
            final(ex)@ == wake_ref_t(old(ex)@, self.wake_target()),
            final(ex)@.wf(),
    ;
}

impl ArcWake for RawWakerExtended {
    open spec fn wake_target(&self) -> usize {
        self.task
    }

    open spec fn wake_owns(&self) -> bool {
        self.owned
    }

    fn wake(self, ex: &mut Executor) {
        ex.queue.push(self.task);
        proof {
            assert(ex@ =~= wake_owned_t(old(ex)@, self.task));
            lemma_wake_owned_wf(old(ex)@, self.task);
        }
    }

    fn wake_by_ref(&self, ex: &mut Executor) {
        let fresh = self.clone(ex);
        ex.queue.push(fresh.task);
        proof {
            assert(ex@ =~= wake_ref_t(old(ex)@, self.task));
            lemma_wake_ref_wf(old(ex)@, self.task);
        }
    }
}

impl RawWakerExtended {
    /// Clone: take one more unit of the task's reference count and return
    /// a handle that owns it. Both owned and borrowed handles may be
    /// cloned; the result always owns its count.
    pub fn clone(&self, ex: &mut Executor) -> (h: RawWakerExtended)
        requires
            old(ex)@.wf(),
            self.task < old(ex)@.tasks.len(),
            old(ex)@.tasks[self.task as int].refs < u64::MAX,
        ensures
            final(ex)@ == clone_t(old(ex)@, self.task),
            final(ex)@.wf(),
            h.task == self.task,
            h.owned,
    {
        let t = self.task;
        let r = ex.tasks[t].refs;
        ex.tasks[t].refs = r + 1;
        proof {
            lemma_tasks_view_update(old(ex).tasks@, t as int, ex.tasks@[t as int]);
            assert(ex@ =~= clone_t(old(ex)@, t));
            lemma_clone_wf(old(ex)@, t);
        }
        RawWakerExtended { task: t, owned: true }
    }

    /// Destroy an owned handle: give its unit of the reference count back;
    /// the last unit to go releases the task's computation slot.
    ///
    /// The precondition demands a count strictly above the number of
    /// holders recorded inside the runtime, which is exactly what a
    /// legitimately obtained owned handle stands for: releasing can never
    /// push the count below the live holders, and a borrowed handle (not
    /// `owned`) can never be released through this path.
    pub fn drop(self, ex: &mut Executor)
        requires
            old(ex)@.wf(),
            self.owned,
            self.task < old(ex)@.tasks.len(),
            old(ex)@.tasks[self.task as int].refs > old(ex)@.holders(self.task),
        ensures
            final(ex)@ == drop_t(old(ex)@, self.task),
            final(ex)@.wf(),
    {
        let t = self.task;
        let r = ex.tasks[t].refs;
        ex.tasks[t].refs = r - 1;
        if r - 1 == 0 {
            ex.tasks[t].slot = None;
        }
        proof {
            assert(ex.tasks@ =~= old(ex).tasks@.update(t as int, ex.tasks@[t as int]));
            lemma_tasks_view_update(old(ex).tasks@, t as int, ex.tasks@[t as int]);
            assert(ex@ =~= drop_t(old(ex)@, t));
            lemma_drop_wf(old(ex)@, t);
        }
    }
}

} // verus!
