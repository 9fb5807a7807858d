//! The job store: jobs in the order in which they fall due, the earliest
//! first.

use crate::calendar::Timestamp;
use crate::jobs::is_store;
use crate::jobs::job_views;
use crate::jobs::Job;
use crate::jobs::JobView;
use vstd::prelude::*;

verus! {

/// The place of the first job of `s` that falls due after `seconds`, or
/// the length of `s` where none does.
pub open spec fn first_later(s: Seq<JobView>, seconds: int) -> int
    decreases s.len(),
{
    if s.len() == 0 || s[0].due_seconds() > seconds {
        0
    } else {
        1 + first_later(s.drop_first(), seconds)
    }
}

/// `s` without the jobs whose id is `id`, the others in their order.
pub open spec fn without_id(s: Seq<JobView>, id: Seq<char>) -> Seq<JobView>
    decreases s.len(),
{
    if s.len() == 0 {
        s
    } else if s.last().id == id {
        without_id(s.drop_last(), id)
    } else {
        without_id(s.drop_last(), id).push(s.last())
    }
}

/// `first_later` lies within the list, no job before it falls due after
/// `seconds`, and the job at it does unless it is the end.
pub proof fn lemma_first_later(s: Seq<JobView>, seconds: int)
    ensures
        0 <= first_later(s, seconds) <= s.len(),
        forall|i: int| 0 <= i < first_later(s, seconds) ==> (#[trigger] s[i]).due_seconds() <= seconds,
        first_later(s, seconds) < s.len() ==> s[first_later(s, seconds)].due_seconds() > seconds,
    decreases s.len(),
{
    if s.len() != 0 && s[0].due_seconds() <= seconds {
        let rest = s.drop_first();
        lemma_first_later(rest, seconds);
        assert forall|i: int| 0 <= i < first_later(s, seconds) implies (#[trigger] s[i]).due_seconds()
            <= seconds by {
            if i > 0 {
                assert(s[i] == rest[i - 1]);
            }
        }
        assert(first_later(rest, seconds) < rest.len() ==> s[first_later(s, seconds)] == rest[first_later(
            rest,
            seconds,
        )]);
    }
}

/// A place before which no job falls due after `seconds`, and at which
/// one does or the list ends, is `first_later`.
pub proof fn lemma_first_later_is(s: Seq<JobView>, seconds: int, k: int)
    requires
        0 <= k <= s.len(),
        forall|i: int| 0 <= i < k ==> (#[trigger] s[i]).due_seconds() <= seconds,
        k < s.len() ==> s[k].due_seconds() > seconds,
    ensures
        first_later(s, seconds) == k,
{
    lemma_first_later(s, seconds);
    let f = first_later(s, seconds);
    if f < k {
        assert(s[f].due_seconds() <= seconds);
    }
}

/// A job with a due time, put in at `first_later`, leaves a store a
/// store.
pub proof fn lemma_insert_keeps_store(s: Seq<JobView>, job: JobView)
    requires
        is_store(s),
        job.due() is Some,
    ensures
        is_store(s.insert(first_later(s, job.due_seconds()), job)),
{
    let p = first_later(s, job.due_seconds());
    lemma_first_later(s, job.due_seconds());
    let after = s.insert(p, job);
    assert forall|i: int| 0 <= i < after.len() implies (#[trigger] after[i]).due() is Some by {
        if i < p {
            assert(after[i] == s[i]);
        } else if i > p {
            assert(after[i] == s[i - 1]);
        }
    }
    assert forall|i: int, j: int| 0 <= i < j < after.len() implies (#[trigger] after[i]).due_seconds()
        <= (#[trigger] after[j]).due_seconds() by {
        let a = if i < p {
            s[i]
        } else if i == p {
            job
        } else {
            s[i - 1]
        };
        let b = if j < p {
            s[j]
        } else if j == p {
            job
        } else {
            s[j - 1]
        };
        assert(after[i] == a && after[j] == b);
        if j > p && p < s.len() {
            assert(s[p].due_seconds() <= s[j - 1].due_seconds() || p == j - 1);
        }
    }
}

/// What `without_id` keeps: no job with the id, every other job, each
/// kept job from the list, and the kept jobs in the order they had.
pub proof fn lemma_without_id(s: Seq<JobView>, id: Seq<char>)
    ensures
        without_id(s, id).len() <= s.len(),
        forall|k: int| 0 <= k < without_id(s, id).len() ==> (#[trigger] without_id(s, id)[k]).id != id,
        forall|k: int|
            0 <= k < without_id(s, id).len() ==> exists|j: int|
                k <= j < s.len() && s[j] == #[trigger] without_id(s, id)[k],
        forall|j: int|
            0 <= j < s.len() && (#[trigger] s[j]).id != id ==> exists|k: int|
                0 <= k <= j && k < without_id(s, id).len() && without_id(s, id)[k] == s[j],
        is_store(s) ==> is_store(without_id(s, id)),
    decreases s.len(),
{
    if s.len() > 0 {
        let front = s.drop_last();
        let kept = without_id(front, id);
        let w = without_id(s, id);
        lemma_without_id(front, id);
        assert forall|k: int| 0 <= k < w.len() implies exists|j: int|
            k <= j < s.len() && s[j] == #[trigger] w[k] by {
            if k < kept.len() {
                let j = choose|j: int| k <= j < front.len() && front[j] == kept[k];
                assert(s[j] == w[k]);
            } else {
                assert(s[s.len() - 1] == w[k]);
            }
        }
        assert forall|j: int| 0 <= j < s.len() && (#[trigger] s[j]).id != id implies exists|k: int|
            0 <= k <= j && k < w.len() && w[k] == s[j] by {
            if j < front.len() {
                assert(front[j] == s[j]);
                let k = choose|k: int| 0 <= k <= j && k < kept.len() && kept[k] == front[j];
                assert(w[k] == s[j]);
            } else {
                assert(w[kept.len() as int] == s[j]);
            }
        }
        if is_store(s) {
            assert(is_store(front)) by {
                assert forall|i: int| 0 <= i < front.len() implies (#[trigger] front[i]).due() is Some by {
                    assert(front[i] == s[i]);
                }
                assert forall|i: int, j: int| 0 <= i < j < front.len() implies (
                #[trigger] front[i]).due_seconds() <= (#[trigger] front[j]).due_seconds() by {
                    assert(front[i] == s[i] && front[j] == s[j]);
                }
            }
            assert forall|i: int| 0 <= i < w.len() implies (#[trigger] w[i]).due() is Some by {
                let j = choose|j: int| i <= j < s.len() && s[j] == w[i];
                assert(s[j].due() is Some);
            }
            assert forall|a: int, b: int| 0 <= a < b < w.len() implies (#[trigger] w[a]).due_seconds()
                <= (#[trigger] w[b]).due_seconds() by {
                if b < kept.len() {
                    assert(kept[a] == w[a] && kept[b] == w[b]);
                } else {
                    assert(w[b] == s[s.len() - 1]);
                    let j = choose|j: int| a <= j < front.len() && front[j] == kept[a];
                    assert(w[a] == s[j]);
                }
            }
        }
    }
}

/// In a store no job falls due before the first, nor any job before one
/// that stands ahead of it.
pub proof fn lemma_first_is_earliest(s: Seq<JobView>, i: int, j: int)
    requires
        is_store(s),
        0 <= i <= j < s.len(),
    ensures
        s[0].due_seconds() <= s[i].due_seconds() <= s[j].due_seconds(),
{
}

/// A job put in stands behind every job that falls due no later than it,
/// those of its own due time too, and ahead of every job that falls due
/// after it; the jobs that were there keep their order.
pub proof fn lemma_insert_is_stable(s: Seq<JobView>, job: JobView)
    requires
        is_store(s),
        job.due() is Some,
    ensures
        forall|i: int|
            0 <= i < s.len() && (#[trigger] s[i]).due_seconds() <= job.due_seconds() ==> i
                < first_later(s, job.due_seconds()) && s.insert(
                first_later(s, job.due_seconds()),
                job,
            )[i] == s[i],
        forall|i: int|
            0 <= i < s.len() && (#[trigger] s[i]).due_seconds() > job.due_seconds() ==> i
                >= first_later(s, job.due_seconds()) && s.insert(
                first_later(s, job.due_seconds()),
                job,
            )[i + 1] == s[i],
{
    let p = first_later(s, job.due_seconds());
    lemma_first_later(s, job.due_seconds());
    assert forall|i: int|
        0 <= i < s.len() && (#[trigger] s[i]).due_seconds() <= job.due_seconds() implies i < p by {
        if i >= p {
            assert(s[p].due_seconds() <= s[i].due_seconds());
        }
    }
}

/// Taking out an id that no job has leaves the list as it was.
pub proof fn lemma_delete_absent(s: Seq<JobView>, id: Seq<char>)
    requires
        forall|i: int| 0 <= i < s.len() ==> (#[trigger] s[i]).id != id,
    ensures
        without_id(s, id) == s,
    decreases s.len(),
{
    if s.len() > 0 {
        let front = s.drop_last();
        assert forall|i: int| 0 <= i < front.len() implies (#[trigger] front[i]).id != id by {
            assert(front[i] == s[i]);
        }
        lemma_delete_absent(front, id);
        assert(s.last() == s[s.len() - 1]);
        assert(front.push(s.last()) =~= s);
    }
}

/// Taking out an id twice leaves what taking it out once leaves.
pub proof fn lemma_delete_twice(s: Seq<JobView>, id: Seq<char>)
    ensures
        without_id(without_id(s, id), id) == without_id(s, id),
{
    lemma_without_id(s, id);
    lemma_delete_absent(without_id(s, id), id);
}

/// Why a list of jobs is no store.
#[derive(Clone, Copy, Debug, PartialEq, Eq, Structural)]
pub enum StoreCorruption {
    /// The time of the job at this place is not the stored text form of a
    /// valid timestamp.
    MalformedTime(usize),
    /// The job at this place falls due before the job ahead of it.
    OutOfOrder(usize),
}

/// Jobs in the order in which they fall due.
pub struct JobStore {
    jobs: Vec<Job>,
}

impl View for JobStore {
    type V = Seq<JobView>;

    closed spec fn view(&self) -> Seq<JobView> {
        job_views(self.jobs@)
    }
}

impl JobStore {
    /// Every job has a due time and the jobs stand in the order of their
    /// due times.
    pub open spec fn wf(&self) -> bool {
        is_store(self@)
    }

    /// A store without jobs.
    pub fn new() -> (r: JobStore)
        ensures
            r.wf(),
            r@ == Seq::<JobView>::empty(),
    {
        let r = JobStore { jobs: Vec::new() };
        assert(r@ =~= Seq::<JobView>::empty());
        r
    }

    /// The store that holds `jobs` as they stand, or the first place at
    /// which they are no store.
    pub fn from_jobs(jobs: Vec<Job>) -> (r: Result<JobStore, StoreCorruption>)
        ensures
            match r {
                Ok(store) => store.wf() && store@ == job_views(jobs@),
                Err(StoreCorruption::MalformedTime(i)) => {
                    &&& i < jobs.len()
                    &&& is_store(job_views(jobs@).take(i as int))
                    &&& job_views(jobs@)[i as int].due() is None
                },
                Err(StoreCorruption::OutOfOrder(i)) => {
                    &&& 0 < i < jobs.len()
                    &&& is_store(job_views(jobs@).take(i as int))
                    &&& job_views(jobs@)[i as int].due() is Some
                    &&& job_views(jobs@)[i as int].due_seconds() < job_views(jobs@)[i - 1].due_seconds()
                },
            },
    {
        let ghost views = job_views(jobs@);
        let mut i: usize = 0;
        let mut last: Option<Timestamp> = None;
        while i < jobs.len()
            invariant
                i <= jobs.len(),
                views == job_views(jobs@),
                is_store(views.take(i as int)),
                i == 0 ==> last is None,
                i > 0 ==> last == views[i - 1].due(),
            decreases jobs.len() - i,
        {
            let due = jobs[i].due_time();
            assert(views[i as int] == jobs@[i as int]@);
            match due {
                None => {
                    return Err(StoreCorruption::MalformedTime(i));
                },
                Some(t) => {
                    if let Some(ahead) = last {
                        assert(views.take(i as int)[i - 1] == views[i - 1]);
                        if t.is_before(&ahead) {
                            return Err(StoreCorruption::OutOfOrder(i));
                        }
                    }
                    proof {
                        let longer = views.take(i + 1);
                        let shorter = views.take(i as int);
                        assert forall|k: int| 0 <= k < longer.len() implies (
                        #[trigger] longer[k]).due() is Some by {
                            if k < i {
                                assert(longer[k] == shorter[k]);
                            }
                        }
                        assert forall|a: int, b: int| 0 <= a < b < longer.len() implies (
                        #[trigger] longer[a]).due_seconds() <= (#[trigger] longer[b]).due_seconds() by {
                            assert(longer[a] == shorter[a]);
                            if b < i {
                                assert(longer[b] == shorter[b]);
                            } else if a < i - 1 {
                                assert(shorter[a].due_seconds() <= shorter[i - 1].due_seconds());
                                assert(shorter[i - 1] == views[i - 1]);
                            } else {
                                assert(shorter[i - 1] == views[i - 1]);
                            }
                        }
                    }
                    last = Some(t);
                },
            }
            i = i + 1;
        }
        assert(views.take(jobs.len() as int) =~= views);
        Ok(JobStore { jobs })
    }

    /// The number of jobs.
    pub fn len(&self) -> (r: usize)
        ensures
            r == self@.len(),
    {
        self.jobs.len()
    }

    /// The job that falls due first, if the store holds any.
    pub fn peek_first(&self) -> (r: Option<&Job>)
        ensures
            match r {
                Some(job) => self@.len() > 0 && job@ == self@[0],
                None => self@.len() == 0,
            },
    {
        if self.jobs.len() == 0 {
            None
        } else {
            Some(&self.jobs[0])
        }
    }

    /// Puts `job` in ahead of the first job that falls due after it, or
    /// at the end where none does, and says at which place. A job whose
    /// time is not the stored text form of a valid timestamp is not put
    /// in.
    pub fn insert(&mut self, job: Job) -> (r: Option<usize>)
        requires
            old(self).wf(),
        ensures
            final(self).wf(),
            match r {
                Some(place) => {
                    &&& job@.due() is Some
                    &&& place == first_later(old(self)@, job@.due_seconds())
                    &&& final(self)@ == old(self)@.insert(place as int, job@)
                },
                None => job@.due() is None && final(self)@ == old(self)@,
            },
    {
        let due = match job.due_time() {
            None => {
                return None;
            },
            Some(due) => due,
        };
        let ghost before = self@;
        let mut place: usize = 0;
        let mut found = false;
        while !found && place < self.jobs.len()
            invariant
                place <= self.jobs.len(),
                self@ == before,
                is_store(before),
                due.is_valid(),
                forall|i: int| 0 <= i < place ==> (#[trigger] before[i]).due_seconds() <= due.unix_seconds(),
                found ==> place < before.len() && before[place as int].due_seconds()
                    > due.unix_seconds(),
            decreases self.jobs.len() - place + (if found { 0int } else { 1int }),
        {
            assert(before[place as int] == self.jobs@[place as int]@);
            assert(before[place as int].due() is Some);
            match self.jobs[place].due_time() {
                Some(other) => {
                    if due.is_before(&other) {
                        found = true;
                    } else {
                        place = place + 1;
                    }
                },
                None => {
                    place = place + 1;
                },
            }
        }
        proof {
            lemma_first_later_is(before, due.unix_seconds(), place as int);
            lemma_insert_keeps_store(before, job@);
        }
        self.jobs.insert(place, job);
        assert(self@ =~= before.insert(place as int, job@));
        Some(place)
    }

    /// Takes out every job whose id is `id` and says how many there were.
    pub fn delete(&mut self, id: &str) -> (r: usize)
        requires
            old(self).wf(),
        ensures
            final(self).wf(),
            final(self)@ == without_id(old(self)@, id@),
            r == old(self)@.len() - final(self)@.len(),
    {
        let wanted: String = id.to_owned();
        let ghost before = self@;
        let ghost mut seen: int = 0;
        let mut at: usize = 0;
        let mut taken: usize = 0;
        assert(before.take(0) =~= Seq::<JobView>::empty());
        assert(before.skip(0) =~= before);
        let count = self.jobs.len();
        assert(before.len() == count);
        while at < self.jobs.len()
            invariant
                0 <= seen <= before.len(),
                at <= self.jobs.len(),
                at + taken == seen,
                before.len() <= usize::MAX,
                wanted@ == id@,
                self@ == without_id(before.take(seen), id@) + before.skip(seen),
                at == without_id(before.take(seen), id@).len(),
            decreases before.len() - seen,
        {
            let ghost kept = without_id(before.take(seen), id@);
            assert(self@[at as int] == before.skip(seen)[0]);
            assert(self@[at as int] == self.jobs@[at as int]@);
            assert(before.take(seen + 1).drop_last() =~= before.take(seen));
            assert(before.take(seen + 1).last() == before[seen]);
            if self.jobs[at].id == wanted {
                let ghost held = self@;
                self.jobs.remove(at);
                assert(self@ =~= held.remove(at as int));
                assert(self@ =~= kept + before.skip(seen + 1));
                taken = taken + 1;
            } else {
                assert(self@ =~= kept.push(before[seen]) + before.skip(seen + 1));
                at = at + 1;
            }
            proof {
                seen = seen + 1;
            }
        }
        proof {
            lemma_without_id(before.take(seen), id@);
            assert(before.skip(seen).len() == 0);
            assert(seen == before.len());
            assert(before.take(seen) =~= before);
            assert(self@ =~= without_id(before, id@));
            lemma_without_id(before, id@);
        }
        taken
    }

    /// Every job, in the order of the store.
    pub fn list_all(&self) -> (r: &Vec<Job>)
        ensures
            job_views(r@) == self@,
    {
        &self.jobs
    }
}

} // verus!
