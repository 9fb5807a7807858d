use scoop::calendar::Timestamp;
use scoop::daemon::{scheduler_step, Shared, IDLE_WAIT};
use scoop::jobs::Job;
use scoop::launch::{duty_after, Duty, Fork};
use scoop::store::JobStore;

fn at(year: i32, month: u32, day: u32, hour: u32, minute: u32, second: u32) -> Timestamp {
    Timestamp::new(year, month, day, hour, minute, second).expect("a valid timestamp")
}

fn job(id: &str, time: &str) -> Job {
    Job { id: id.to_string(), time: time.to_string(), cmd: "run".to_string(), args: Vec::new() }
}

fn ids(store: &JobStore) -> Vec<String> {
    store.list_all().iter().map(|j| j.id.clone()).collect()
}

#[test]
fn empty_store_sleeps_an_hour() {
    let mut store = JobStore::new();
    let step = scheduler_step(&mut store, at(2024, 1, 1, 8, 0, 0));
    assert!(step.run.is_none());
    assert_eq!(step.wait, Some(3_600));
    assert_eq!(IDLE_WAIT, 3_600);
}

#[test]
fn future_job_is_slept_towards() {
    let mut store = JobStore::new();
    store.insert(job("a", "2024-01-01 08:00:10"));
    store.insert(job("b", "2024-01-03 08:00:00"));
    let step = scheduler_step(&mut store, at(2024, 1, 1, 8, 0, 0));
    assert!(step.run.is_none());
    assert_eq!(step.wait, Some(10));
    assert_eq!(ids(&store), vec!["a", "b"]);
    store.delete("a");
    let step = scheduler_step(&mut store, at(2024, 1, 1, 8, 0, 0));
    assert_eq!(step.wait, Some(172_800));
}

#[test]
fn overdue_job_is_dropped_and_never_run() {
    let mut store = JobStore::new();
    store.insert(job("old", "2024-01-01 07:59:59"));
    store.insert(job("older", "2023-06-01 00:00:00"));
    store.insert(job("next", "2024-01-01 09:00:00"));
    let now = at(2024, 1, 1, 8, 0, 0);
    let step = scheduler_step(&mut store, now);
    assert!(step.run.is_none());
    assert_eq!(step.wait, None);
    assert_eq!(ids(&store), vec!["old", "next"]);
    let step = scheduler_step(&mut store, now);
    assert!(step.run.is_none());
    assert_eq!(step.wait, None);
    assert_eq!(ids(&store), vec!["next"]);
    let step = scheduler_step(&mut store, now);
    assert!(step.run.is_none());
    assert_eq!(step.wait, Some(3_600));
    assert_eq!(ids(&store), vec!["next"]);
}

#[test]
fn job_due_now_is_taken_out_and_run_once() {
    let mut store = JobStore::new();
    store.insert(job("now", "2024-01-01 08:00:00"));
    store.insert(job("next", "2024-01-01 08:00:05"));
    let now = at(2024, 1, 1, 8, 0, 0);
    let step = scheduler_step(&mut store, now);
    assert_eq!(step.run, Some(job("now", "2024-01-01 08:00:00")));
    assert_eq!(step.wait, Some(3_600));
    assert_eq!(ids(&store), vec!["next"]);
    let step = scheduler_step(&mut store, now);
    assert!(step.run.is_none());
    assert_eq!(step.wait, Some(5));
}

#[test]
fn taking_out_a_job_takes_out_those_that_share_its_id() {
    let mut store = JobStore::new();
    store.insert(job("same", "2024-01-01 08:00:00"));
    store.insert(job("other", "2024-01-01 09:00:00"));
    store.insert(job("same", "2024-01-01 10:00:00"));
    let step = scheduler_step(&mut store, at(2024, 1, 1, 8, 0, 0));
    assert_eq!(step.run.map(|j| j.time), Some("2024-01-01 08:00:00".to_string()));
    assert_eq!(ids(&store), vec!["other"]);
}

#[test]
fn an_earlier_job_shortens_the_sleep() {
    let now = at(2024, 1, 1, 8, 0, 0);
    let mut store = JobStore::new();
    store.insert(job("late", "2024-01-01 08:30:00"));
    assert_eq!(scheduler_step(&mut store, now).wait, Some(1_800));
    store.insert(job("soon", "2024-01-01 08:01:00"));
    assert_eq!(scheduler_step(&mut store, now).wait, Some(60));
}

#[test]
fn watcher_failure_stops_the_daemon() {
    let mut shared = Shared::new();
    assert!(!shared.stopped);
    assert!(shared.goes_on());
    assert!(shared.after_watch(true));
    assert!(shared.goes_on());
    assert!(!shared.after_watch(false));
    assert!(shared.stopped);
    assert!(!shared.goes_on());
    assert!(shared.after_watch(true));
    assert!(shared.stopped);
}

#[test]
fn duties_after_each_duplication() {
    assert_eq!(duty_after(Fork::First, 0), Duty::DetachAndForkAgain);
    assert_eq!(duty_after(Fork::First, 4242), Duty::ReapIntermediate);
    assert_eq!(duty_after(Fork::First, -1), Duty::ReapIntermediate);
    assert_eq!(duty_after(Fork::Second, 0), Duty::RunCommand);
    assert_eq!(duty_after(Fork::Second, 4243), Duty::Exit);
    assert_eq!(duty_after(Fork::Second, -1), Duty::Exit);
}
