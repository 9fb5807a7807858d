//! The decisions of the scheduling daemon. The daemon itself sleeps,
//! watches the store's file and starts programs; what it does next is
//! decided here, from what it has seen.

use crate::calendar::lemma_valid_seconds_bounded;
use crate::calendar::Timestamp;
use crate::jobs::is_store;
use crate::jobs::Job;
use crate::jobs::JobView;
use crate::store::first_later;
use crate::store::lemma_without_id;
use crate::store::without_id;
use crate::store::JobStore;
use vstd::prelude::*;

verus! {

/// The seconds that the scheduling loop sleeps when no job tells it
/// otherwise: one hour.
pub const IDLE_WAIT: u64 = 3_600;

/// What the scheduling loop does after it has looked at the store.
pub struct Step {
    /// The job to hand to the executor, if one fell due at this moment.
    pub run: Option<Job>,
    /// The seconds to sleep, unless woken; `None` to look at the store
    /// again at once.
    pub wait: Option<u64>,
}

/// What a step holds, as plain text.
pub struct StepView {
    pub run: Option<JobView>,
    pub wait: Option<u64>,
}

impl View for Step {
    type V = StepView;

    open spec fn view(&self) -> StepView {
        StepView {
            run: match self.run {
                Some(job) => Some(job@),
                None => None,
            },
            wait: self.wait,
        }
    }
}

/// The store and the step after the scheduling loop has looked at the
/// store at `now`. An empty store is slept on for an hour. A first job
/// that is overdue is taken out, not run, and the store looked at again
/// at once. A first job that falls due at this very second is taken out
/// and run, and an hour slept. A first job still to come is slept
/// towards. Taking out a job takes out every job that shares its id.
pub open spec fn step_at(before: Seq<JobView>, now: Timestamp) -> (Seq<JobView>, StepView) {
    if before.len() == 0 {
        (before, StepView { run: None, wait: Some(IDLE_WAIT) })
    } else {
        let first = before[0];
        let ahead = first.due_seconds() - now.unix_seconds();
        if ahead < 0 {
            (without_id(before, first.id), StepView { run: None, wait: None })
        } else if ahead == 0 {
            (without_id(before, first.id), StepView { run: Some(first), wait: Some(IDLE_WAIT) })
        } else {
            (before, StepView { run: None, wait: Some(ahead as u64) })
        }
    }
}

/// One look of the scheduling loop at the store, at `now`.
pub fn scheduler_step(store: &mut JobStore, now: Timestamp) -> (r: Step)
    requires
        old(store).wf(),
        now.is_valid(),
    ensures
        final(store).wf(),
        (final(store)@, r@) == step_at(old(store)@, now),
{
    let first = match store.peek_first() {
        None => {
            return Step { run: None, wait: Some(IDLE_WAIT) };
        },
        Some(job) => job.duplicate(),
    };
    match first.due_time() {
        Some(due) => {
            proof {
                lemma_valid_seconds_bounded(now);
                lemma_valid_seconds_bounded(due);
            }
            let ahead = now.seconds_until(&due);
            if ahead < 0 {
                store.delete(first.id.as_str());
                Step { run: None, wait: None }
            } else if ahead == 0 {
                store.delete(first.id.as_str());
                Step { run: Some(first), wait: Some(IDLE_WAIT) }
            } else {
                Step { run: None, wait: Some(ahead as u64) }
            }
        },
        // Every job of a store has a due time.
        None => Step { run: None, wait: Some(IDLE_WAIT) },
    }
}

/// A job put into the store that falls due after now and before the job
/// which the scheduling loop sleeps towards becomes the job that the next
/// step sleeps towards, and that sleep is the shorter one. The daemon
/// takes such a step as soon as it is woken.
pub proof fn lemma_earlier_job_shortens_sleep(before: Seq<JobView>, job: JobView, now: Timestamp)
    requires
        is_store(before),
        now.is_valid(),
        before.len() > 0,
        job.due() is Some,
        now.unix_seconds() < job.due_seconds() < before[0].due_seconds(),
    ensures
        first_later(before, job.due_seconds()) == 0,
        step_at(before, now).1.wait == Some((before[0].due_seconds() - now.unix_seconds()) as u64),
        step_at(before.insert(0, job), now) == (
            before.insert(0, job),
            StepView { run: None, wait: Some((job.due_seconds() - now.unix_seconds()) as u64) },
        ),
        job.due_seconds() - now.unix_seconds() < before[0].due_seconds() - now.unix_seconds(),
{
    lemma_valid_seconds_bounded(now);
    lemma_valid_seconds_bounded(job.due()->0);
    lemma_valid_seconds_bounded(before[0].due()->0);
}

/// A job that a step hands to the executor is in the store no more, nor
/// is any job with its id: no later step can run it again.
pub proof fn lemma_run_job_is_gone(before: Seq<JobView>, now: Timestamp)
    requires
        step_at(before, now).1.run is Some,
    ensures
        forall|i: int|
            0 <= i < step_at(before, now).0.len() ==> (#[trigger] step_at(before, now).0[i]).id
                != step_at(before, now).1.run->0.id,
{
    lemma_without_id(before, before[0].id);
}

/// What the two activities of the daemon share: whether the daemon is to
/// stop.
pub struct Shared {
    pub stopped: bool,
}

impl Shared {
    /// The shared state of a daemon that has just started.
    pub fn new() -> (r: Shared)
        ensures
            !r.stopped,
    {
        Shared { stopped: false }
    }

    /// What the watching activity does after one wait for a change of the
    /// store's file: `changed` says that a change was seen, its absence
    /// that the watch failed. A failed watch stops the daemon. Either way
    /// the scheduling loop is to be woken; the answer says whether to
    /// watch again.
    pub fn after_watch(&mut self, changed: bool) -> (again: bool)
        ensures
            final(self).stopped == (old(self).stopped || !changed),
            again == changed,
    {
        if !changed {
            self.stopped = true;
        }
        changed
    }

    /// Whether the scheduling loop, woken from its sleep, goes on.
    pub fn goes_on(&self) -> (r: bool)
        ensures
            r == !self.stopped,
    {
        !self.stopped
    }
}

} // verus!
