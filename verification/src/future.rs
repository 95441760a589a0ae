//! The timer-backed suspension primitive.
//!
//! A `Sleep` becomes ready once its timer has fired, at or after its
//! deadline on the runtime's logical clock. Polling it while pending
//! installs the caller's wake handle, overwriting any previous one; firing
//! it marks it ready exactly once and forever, and consumes the stored
//! handle so that the parked task re-enters the ready queue.

use vstd::prelude::*;
use crate::waker::{RawWakerExtended, ArcWake};
use crate::runtime::Executor;
use crate::model::{
    sleep_t, fire_t, lemma_sleep_wf, lemma_sleeps_view_push,
    lemma_sleeps_view_update, lemma_count_w_update, SleepM, Model,
};

verus! {

/// The shared state of one suspension primitive: a deadline on the logical
/// clock, a ready flag, and the most recent poller's wake handle.
pub struct Sleep {
    pub deadline: u64,
    pub is_ready: bool,
    pub waker: Option<RawWakerExtended>,
}

impl Sleep {
    /// Polls the sleep state. Returns `(true, None)` and changes nothing
    /// once the sleep is ready. While pending, stores `w` as the handle to
    /// wake when the timer fires — overwriting any previously installed
    /// handle, which is handed back to the caller for release — and
    /// returns `false`.
    pub fn poll(&mut self, w: RawWakerExtended) -> (r: (bool, Option<RawWakerExtended>))
        ensures
            old(self).is_ready ==> r.0 && *final(self) == *old(self) && r.1 is None,
            !old(self).is_ready ==> {
                &&& !r.0
                &&& final(self).deadline == old(self).deadline
                &&& !final(self).is_ready
                &&& final(self).waker == Some(w)
                &&& r.1 == old(self).waker
            },
    {
        if self.is_ready {
            (true, None)
        } else {
            let displaced = self.waker.take();
            self.waker = Some(w);
            (false, displaced)
        }
    }
}

/// Constructs a suspension primitive that becomes ready after `dur` units
/// of the logical clock: a pending sleep record with deadline `now + dur`
/// is added to the runtime, and its id is returned. The timer itself is
/// whoever later calls [`Executor::fire`] at or after the deadline — in a
/// real program, a dedicated background thread.
pub fn sleep(ex: &mut Executor, dur: u64) -> (sid: usize)
    requires
        old(ex)@.wf(),
    ensures
        final(ex)@ == sleep_t(old(ex)@, dur),
        final(ex)@.wf(),
        sid == old(ex)@.sleeps.len(),
{
    let sid = ex.sleeps.len();
    let deadline = if dur > u64::MAX - ex.now {
        u64::MAX
    } else {
        ex.now + dur
    };
    let rec = Sleep { deadline, is_ready: false, waker: None };
    ex.sleeps.push(rec);
    proof {
        lemma_sleeps_view_push(old(ex).sleeps@, ex.sleeps@[sid as int]);
        assert(ex@ =~= sleep_t(old(ex)@, dur));
        lemma_sleep_wf(old(ex)@, dur);
    }
    sid
}

impl Executor {
    /// The timer action for sleep `sid`, performed exactly once, at or
    /// after the record's deadline: mark the record ready, and consume the
    /// stored wake handle, if one was installed, to re-enqueue its task.
    /// If the timer fires before the first poll installed a handle, there
    /// is nothing to wake; the next poll will observe the ready flag.
    pub fn fire(&mut self, sid: usize)
        requires
            old(self)@.wf(),
            sid < old(self)@.sleeps.len(),
            !old(self)@.sleeps[sid as int].ready,
            old(self)@.sleeps[sid as int].deadline <= old(self)@.now,
        ensures
            final(self)@ == fire_t(old(self)@, sid),
            final(self)@.wf(),
    {
        self.sleeps[sid].is_ready = true;
        let taken = self.sleeps[sid].waker.take();
        proof {
            assert(self.sleeps@ =~= old(self).sleeps@.update(
                sid as int,
                self.sleeps@[sid as int],
            ));
            lemma_sleeps_view_update(old(self).sleeps@, sid as int, self.sleeps@[sid as int]);
            let m = old(self)@;
            let rec = SleepM { ready: true, waker: None, ..m.sleeps[sid as int] };
            assert(self@ =~= Model { sleeps: m.sleeps.update(sid as int, rec), ..m });
            assert forall|u: usize|
                u < self@.tasks.len() implies self@.tasks[u as int].refs >= self@.holders(u) by {
                lemma_count_w_update(m.sleeps, sid as int, rec, u);
            };
            assert(self@.wf());
        }
        match taken {
            None => {
                proof {
                    assert(self@ =~= fire_t(old(self)@, sid));
                }
            }
            Some(h) => {
                proof {
                    let m = old(self)@;
                    let rec = SleepM { ready: true, waker: None, ..m.sleeps[sid as int] };
                    lemma_count_w_update(m.sleeps, sid as int, rec, h.task);
                }
                h.wake(self);
                proof {
                    assert(self@ =~= fire_t(old(self)@, sid));
                }
            }
        }
    }
}

} // verus!
