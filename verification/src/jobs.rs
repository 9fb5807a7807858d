//! Jobs and the store that keeps them in the order in which they fall
//! due.

use crate::calendar::Timestamp;
use crate::stamp::format_time;
use crate::stamp::lemma_stamp_round_trip;
use crate::stamp::parse_stamp;
use crate::stamp::stamp_text;
use crate::stamp::stamp_value;
use crate::store::first_later;
use crate::store::without_id;
use crate::store::JobStore;
use crate::text::hex_char;
use crate::text::hex_text;
use crate::timeexpr::parse_time;
use crate::timeexpr::time_value;
use rand::Rng;
use vstd::prelude::*;
use vstd::string::StringExecFns;

verus! {

/// A command to run at a time.
#[derive(Clone, Debug, PartialEq, Eq)]
pub struct Job {
    /// A short token by which the job is asked for.
    pub id: String,
    /// The time at which the job falls due, in the stored text form.
    pub time: String,
    /// The name or path of the program.
    pub cmd: String,
    /// The words handed to the program.
    pub args: Vec<String>,
}

/// What a job holds, as plain text.
pub struct JobView {
    pub id: Seq<char>,
    pub time: Seq<char>,
    pub cmd: Seq<char>,
    pub args: Seq<Seq<char>>,
}

/// The texts of a list of words.
pub open spec fn texts(words: Seq<String>) -> Seq<Seq<char>> {
    words.map_values(|w: String| w@)
}

impl View for Job {
    type V = JobView;

    open spec fn view(&self) -> JobView {
        JobView { id: self.id@, time: self.time@, cmd: self.cmd@, args: texts(self.args@) }
    }
}

impl JobView {
    /// The time at which the job falls due, where its text names one.
    pub open spec fn due(self) -> Option<Timestamp> {
        stamp_value(self.time)
    }

    /// The seconds of the due time; only meant for a job that has one.
    pub open spec fn due_seconds(self) -> int {
        self.due()->0.unix_seconds()
    }
}

/// What a list of jobs holds.
pub open spec fn job_views(jobs: Seq<Job>) -> Seq<JobView> {
    jobs.map_values(|j: Job| j@)
}

/// Every job has a due time, and no job falls due before one that stands
/// ahead of it.
pub open spec fn is_store(s: Seq<JobView>) -> bool {
    &&& forall|i: int| 0 <= i < s.len() ==> (#[trigger] s[i]).due() is Some
    &&& forall|i: int, j: int|
        0 <= i < j < s.len() ==> (#[trigger] s[i]).due_seconds() <= (#[trigger] s[j]).due_seconds()
}

/// A copy of a list of words.
pub fn copy_words(words: &Vec<String>) -> (r: Vec<String>)
    ensures
        texts(r@) == texts(words@),
{
    let mut out: Vec<String> = Vec::new();
    let mut i: usize = 0;
    while i < words.len()
        invariant
            i <= words.len(),
            out.len() == i,
            forall|k: int| 0 <= k < i ==> out@[k]@ == words@[k]@,
        decreases words.len() - i,
    {
        out.push(words[i].clone());
        i = i + 1;
    }
    assert(texts(out@) =~= texts(words@));
    out
}

impl Job {
    /// A copy of the job.
    pub fn duplicate(&self) -> (r: Job)
        ensures
            r@ == self@,
    {
        Job {
            id: self.id.clone(),
            time: self.time.clone(),
            cmd: self.cmd.clone(),
            args: copy_words(&self.args),
        }
    }

    /// The time at which the job falls due; `None` where its text is not
    /// the stored form of a valid timestamp.
    pub fn due_time(&self) -> (r: Option<Timestamp>)
        ensures
            r == self@.due(),
    {
        parse_stamp(self.time.as_str())
    }
}

/// Why a job was not added.
#[derive(Clone, Copy, Debug, PartialEq, Eq, Structural)]
pub enum AddError {
    /// The time expression names no timestamp.
    InvalidTime,
    /// The time named is not after the moment of asking.
    InPast,
}

/// The id made of sixteen bits: four hexadecimal digits, lower case, the
/// highest first.
pub open spec fn id_text(bits: int) -> Seq<char> {
    seq![
        hex_char(bits / 4096),
        hex_char(bits / 256 % 16),
        hex_char(bits / 16 % 16),
        hex_char(bits % 16),
    ]
}

/// The store and the answer after the job was asked for that falls due at
/// what `time` names when read at `now`, with the id made of `bits`. The
/// job goes in ahead of the first job that falls due after it; a time
/// that is no time, or not after `now`, leaves the store as it was.
pub open spec fn added(
    before: Seq<JobView>,
    time: Seq<char>,
    cmd: Seq<char>,
    args: Seq<Seq<char>>,
    now: Timestamp,
    bits: u16,
) -> (Seq<JobView>, Result<Seq<char>, AddError>) {
    match time_value(time, now) {
        None => (before, Err(AddError::InvalidTime)),
        Some(due) => if due.unix_seconds() <= now.unix_seconds() {
            (before, Err(AddError::InPast))
        } else {
            (
                before.insert(
                    first_later(before, due.unix_seconds()),
                    JobView { id: id_text(bits as int), time: stamp_text(due), cmd, args },
                ),
                Ok(id_text(bits as int)),
            )
        },
    }
}

/// What an answer of `add_job` holds, as plain text.
pub open spec fn answer_view(r: Result<String, AddError>) -> Result<Seq<char>, AddError> {
    match r {
        Ok(id) => Ok(id@),
        Err(e) => Err(e),
    }
}

/// The id made of `bits`.
pub fn id_of(bits: u16) -> (r: String)
    ensures
        r@ == id_text(bits as int),
{
    let n: u32 = bits as u32;
    let mut out = String::new();
    out.append(hex_text(n / 4096));
    out.append(hex_text(n / 256 % 16));
    out.append(hex_text(n / 16 % 16));
    out.append(hex_text(n % 16));
    assert(out@ =~= id_text(bits as int));
    out
}

/// Calls `rand::Rng::gen` for a `u16` on the generator that
/// `rand::thread_rng` hands out.
///
/// Trusted, not proved, and nothing is claimed: any sixteen bits may come
/// back, and two calls need not agree. The generator is seeded by the
/// operating system when a thread first asks for it.
#[verifier::external_body]
fn random_bits() -> u16 {
    rand::thread_rng().gen::<u16>()
}

/// Adds the job that runs `cmd` with `args` at the time that `time`
/// names when read at `now`, under the id made of `bits`, and hands back
/// that id.
pub fn schedule_job(
    store: &mut JobStore,
    time: &str,
    cmd: &str,
    args: &Vec<String>,
    now: Timestamp,
    bits: u16,
) -> (r: Result<String, AddError>)
    requires
        old(store).wf(),
        now.is_valid(),
    ensures
        final(store).wf(),
        (final(store)@, answer_view(r)) == added(
            old(store)@,
            time@,
            cmd@,
            texts(args@),
            now,
            bits,
        ),
{
    let due = match parse_time(time, now) {
        None => {
            return Err(AddError::InvalidTime);
        },
        Some(due) => due,
    };
    if !now.is_before(&due) {
        return Err(AddError::InPast);
    }
    let job = Job {
        id: id_of(bits),
        time: format_time(&due),
        cmd: cmd.to_owned(),
        args: copy_words(args),
    };
    let id = job.id.clone();
    proof {
        lemma_stamp_round_trip(due);
    }
    let ghost view = job@;
    assert(view == (JobView {
        id: id_text(bits as int),
        time: stamp_text(due),
        cmd: cmd@,
        args: texts(args@),
    }));
    let placed = store.insert(job);
    assert(placed is Some);
    Ok(id)
}

/// Adds the job that runs `cmd` with `args` at the time that `time`
/// names when read at `now`, under an id drawn at random, and hands back
/// that id. Two jobs may draw the same id; `del_job` then takes out both.
pub fn add_job(store: &mut JobStore, time: &str, cmd: &str, args: &Vec<String>, now: Timestamp) -> (r:
    Result<String, AddError>)
    requires
        old(store).wf(),
        now.is_valid(),
    ensures
        final(store).wf(),
        exists|bits: u16|
            (final(store)@, answer_view(r)) == #[trigger] added(
                old(store)@,
                time@,
                cmd@,
                texts(args@),
                now,
                bits,
            ),
{
    let bits = random_bits();
    schedule_job(store, time, cmd, args, now, bits)
}

/// Takes out every job whose id is `id` and says how many there were;
/// an id that no job has leaves the store as it was.
pub fn del_job(store: &mut JobStore, id: &str) -> (r: usize)
    requires
        old(store).wf(),
    ensures
        final(store).wf(),
        final(store)@ == without_id(old(store)@, id@),
        r == old(store)@.len() - final(store)@.len(),
{
    store.delete(id)
}

/// The words of a list, one blank between each two.
pub open spec fn joined(words: Seq<Seq<char>>) -> Seq<char>
    decreases words.len(),
{
    if words.len() == 0 {
        Seq::empty()
    } else if words.len() == 1 {
        words[0]
    } else {
        joined(words.drop_last()) + seq![' '] + words.last()
    }
}

/// The line that shows a job: its id, its time, and its command with the
/// words handed to it, a tab after the id and after the time.
pub open spec fn row_text(job: JobView) -> Seq<char> {
    job.id + seq!['\t'] + job.time + seq!['\t'] + job.cmd + seq![' '] + joined(job.args)
}

/// The line that heads the list of jobs.
pub open spec fn header_text() -> Seq<char> {
    "ID  \tTIME               \tCOMMAND"@
}

/// The words of `words`, one blank between each two.
pub fn join_words(words: &Vec<String>) -> (r: String)
    ensures
        r@ == joined(texts(words@)),
{
    let mut out = String::new();
    let mut i: usize = 0;
    while i < words.len()
        invariant
            i <= words.len(),
            out@ == joined(texts(words@).take(i as int)),
        decreases words.len() - i,
    {
        let ghost before = texts(words@).take(i as int);
        let ghost after = texts(words@).take(i + 1);
        assert(after.drop_last() =~= before);
        assert(after.last() == words@[i as int]@);
        let ghost so_far = out@;
        proof {
            reveal_strlit(" ");
        }
        assert(before.len() == i);
        assert(after.len() == i + 1);
        if i > 0 {
            out.append(" ");
        }
        out.append(words[i].as_str());
        if i > 0 {
            assert(out@ =~= so_far + seq![' '] + after.last());
            assert(joined(after) == joined(after.drop_last()) + seq![' '] + after.last());
        } else {
            assert(so_far =~= Seq::<char>::empty());
            assert(out@ =~= after[0]);
        }
        i = i + 1;
    }
    assert(texts(words@).take(words.len() as int) =~= texts(words@));
    out
}

/// The line that shows `job`.
pub fn format_row(job: &Job) -> (r: String)
    ensures
        r@ == row_text(job@),
{
    proof {
        reveal_strlit("\t");
        reveal_strlit(" ");
    }
    let mut out = String::new();
    out.append(job.id.as_str());
    out.append("\t");
    out.append(job.time.as_str());
    out.append("\t");
    out.append(job.cmd.as_str());
    out.append(" ");
    let words = join_words(&job.args);
    out.append(words.as_str());
    assert(out@ =~= row_text(job@));
    out
}

/// The lines that show the store: the heading, and then one line for
/// each job in the order of the store.
pub fn list_jobs(store: &JobStore) -> (r: Vec<String>)
    ensures
        r.len() == store@.len() + 1,
        r@[0]@ == header_text(),
        forall|i: int| 0 <= i < store@.len() ==> (#[trigger] r@[i + 1])@ == row_text(store@[i]),
{
    let jobs = store.list_all();
    let mut out: Vec<String> = Vec::new();
    out.push("ID  \tTIME               \tCOMMAND".to_owned());
    let mut i: usize = 0;
    while i < jobs.len()
        invariant
            i <= jobs.len(),
            job_views(jobs@) == store@,
            out.len() == i + 1,
            out@[0]@ == header_text(),
            forall|k: int| 0 <= k < i ==> (#[trigger] out@[k + 1])@ == row_text(store@[k]),
        decreases jobs.len() - i,
    {
        assert(store@[i as int] == jobs@[i as int]@);
        out.push(format_row(&jobs[i]));
        i = i + 1;
    }
    out
}

/// A copy of the job that falls due first, if the store holds any.
pub fn get_first_job(store: &JobStore) -> (r: Option<Job>)
    ensures
        match r {
            Some(job) => store@.len() > 0 && job@ == store@[0],
            None => store@.len() == 0,
        },
{
    match store.peek_first() {
        Some(job) => Some(job.duplicate()),
        None => None,
    }
}

} // verus!
