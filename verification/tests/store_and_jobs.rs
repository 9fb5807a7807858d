use scoop::calendar::Timestamp;
use scoop::jobs::{
    add_job, del_job, format_row, get_first_job, id_of, join_words, list_jobs, schedule_job,
    AddError, Job,
};
use scoop::store::{JobStore, StoreCorruption};

fn at(year: i32, month: u32, day: u32, hour: u32, minute: u32, second: u32) -> Timestamp {
    Timestamp::new(year, month, day, hour, minute, second).expect("a valid timestamp")
}

fn job(id: &str, time: &str, cmd: &str, args: &[&str]) -> Job {
    Job {
        id: id.to_string(),
        time: time.to_string(),
        cmd: cmd.to_string(),
        args: args.iter().map(|a| a.to_string()).collect(),
    }
}

fn ids(store: &JobStore) -> Vec<String> {
    store.list_all().iter().map(|j| j.id.clone()).collect()
}

fn times(store: &JobStore) -> Vec<String> {
    store.list_all().iter().map(|j| j.time.clone()).collect()
}

#[test]
fn new_store_is_empty() {
    let store = JobStore::new();
    assert_eq!(store.len(), 0);
    assert!(store.peek_first().is_none());
    assert!(store.list_all().is_empty());
    assert!(get_first_job(&store).is_none());
}

#[test]
fn insert_keeps_the_order_of_due_times() {
    let mut store = JobStore::new();
    assert_eq!(store.insert(job("b", "2024-01-01 10:00:00", "b", &[])), Some(0));
    assert_eq!(store.insert(job("d", "2024-01-01 12:00:00", "d", &[])), Some(1));
    assert_eq!(store.insert(job("a", "2024-01-01 09:00:00", "a", &[])), Some(0));
    assert_eq!(store.insert(job("c", "2024-01-01 11:00:00", "c", &[])), Some(2));
    assert_eq!(store.insert(job("e", "2025-01-01 00:00:00", "e", &[])), Some(4));
    assert_eq!(ids(&store), vec!["a", "b", "c", "d", "e"]);
    assert_eq!(store.peek_first().map(|j| j.id.as_str()), Some("a"));
    assert_eq!(store.len(), 5);
    let listed = times(&store);
    let mut sorted = listed.clone();
    sorted.sort();
    assert_eq!(listed, sorted);
}

#[test]
fn insert_goes_behind_jobs_of_the_same_due_time() {
    let mut store = JobStore::new();
    store.insert(job("first", "2024-01-01 10:00:00", "x", &[]));
    store.insert(job("later", "2024-01-01 11:00:00", "x", &[]));
    assert_eq!(store.insert(job("second", "2024-01-01 10:00:00", "x", &[])), Some(1));
    assert_eq!(store.insert(job("third", "2024-01-01 10:00:00", "x", &[])), Some(2));
    assert_eq!(ids(&store), vec!["first", "second", "third", "later"]);
}

#[test]
fn insert_refuses_a_malformed_time() {
    let mut store = JobStore::new();
    store.insert(job("a", "2024-01-01 10:00:00", "x", &[]));
    assert_eq!(store.insert(job("bad", "tomorrow", "x", &[])), None);
    assert_eq!(store.insert(job("bad", "2024-02-30 10:00:00", "x", &[])), None);
    assert_eq!(ids(&store), vec!["a"]);
}

#[test]
fn delete_takes_out_every_job_with_the_id() {
    let mut store = JobStore::new();
    store.insert(job("a", "2024-01-01 09:00:00", "x", &[]));
    store.insert(job("dup", "2024-01-01 10:00:00", "x", &[]));
    store.insert(job("b", "2024-01-01 11:00:00", "x", &[]));
    store.insert(job("dup", "2024-01-01 12:00:00", "x", &[]));
    store.insert(job("c", "2024-01-01 13:00:00", "x", &[]));
    assert_eq!(store.delete("dup"), 2);
    assert_eq!(ids(&store), vec!["a", "b", "c"]);
    assert_eq!(store.delete("a"), 1);
    assert_eq!(store.delete("c"), 1);
    assert_eq!(ids(&store), vec!["b"]);
    assert_eq!(store.delete("b"), 1);
    assert_eq!(store.len(), 0);
    assert_eq!(store.delete("b"), 0);
}

#[test]
fn delete_of_an_unknown_id_changes_nothing() {
    let mut store = JobStore::new();
    store.insert(job("a", "2024-01-01 09:00:00", "x", &["1"]));
    store.insert(job("b", "2024-01-01 10:00:00", "y", &["2", "3"]));
    let before = store.list_all().clone();
    assert_eq!(del_job(&mut store, "zz"), 0);
    assert_eq!(store.list_all(), &before);
    assert_eq!(del_job(&mut store, ""), 0);
    assert_eq!(del_job(&mut store, "A"), 0);
    assert_eq!(store.list_all(), &before);
}

#[test]
fn delete_twice_is_delete_once() {
    let mut store = JobStore::new();
    store.insert(job("a", "2024-01-01 09:00:00", "x", &[]));
    store.insert(job("b", "2024-01-01 10:00:00", "y", &[]));
    assert_eq!(del_job(&mut store, "a"), 1);
    let once = store.list_all().clone();
    assert_eq!(del_job(&mut store, "a"), 0);
    assert_eq!(store.list_all(), &once);
}

#[test]
fn store_from_jobs_checks_times_and_order() {
    let good = vec![
        job("a", "2024-01-01 09:00:00", "x", &[]),
        job("b", "2024-01-01 09:00:00", "x", &[]),
        job("c", "2024-01-02 09:00:00", "x", &[]),
    ];
    let store = JobStore::from_jobs(good.clone()).expect("a store");
    assert_eq!(store.list_all(), &good);
    assert!(JobStore::from_jobs(Vec::new()).is_ok());

    let malformed = vec![
        job("a", "2024-01-01 09:00:00", "x", &[]),
        job("b", "not a time", "x", &[]),
        job("c", "2023-01-02 09:00:00", "x", &[]),
    ];
    assert_eq!(JobStore::from_jobs(malformed).err(), Some(StoreCorruption::MalformedTime(1)));

    let unsorted = vec![
        job("a", "2024-01-01 09:00:00", "x", &[]),
        job("b", "2024-01-03 09:00:00", "x", &[]),
        job("c", "2024-01-02 09:00:00", "x", &[]),
        job("d", "bad", "x", &[]),
    ];
    assert_eq!(JobStore::from_jobs(unsorted).err(), Some(StoreCorruption::OutOfOrder(2)));

    let first_bad = vec![job("a", "", "x", &[])];
    assert_eq!(JobStore::from_jobs(first_bad).err(), Some(StoreCorruption::MalformedTime(0)));
}

#[test]
fn ids_are_four_hex_digits() {
    assert_eq!(id_of(0), "0000");
    assert_eq!(id_of(0x00a7), "00a7");
    assert_eq!(id_of(0xbeef), "beef");
    assert_eq!(id_of(0x1234), "1234");
    assert_eq!(id_of(0xffff), "ffff");
    assert_eq!(id_of(0x0f90), "0f90");
    assert_eq!(id_of(0xabcd), "abcd");
}

#[test]
fn schedule_job_adds_in_order() {
    let now = at(2024, 1, 1, 8, 0, 0);
    let mut store = JobStore::new();
    let args = vec!["-l".to_string(), "/tmp".to_string()];
    assert_eq!(schedule_job(&mut store, "+2h", "ls", &args, now, 0x0001), Ok("0001".to_string()));
    assert_eq!(schedule_job(&mut store, "+1h", "date", &Vec::new(), now, 0x00ff), Ok("00ff".to_string()));
    assert_eq!(schedule_job(&mut store, "@930am", "true", &Vec::new(), now, 0xabcd), Ok("abcd".to_string()));
    assert_eq!(schedule_job(&mut store, "+1h", "echo", &Vec::new(), now, 0x0002), Ok("0002".to_string()));
    assert_eq!(
        store.list_all(),
        &vec![
            job("00ff", "2024-01-01 09:00:00", "date", &[]),
            job("0002", "2024-01-01 09:00:00", "echo", &[]),
            job("abcd", "2024-01-01 09:30:00", "true", &[]),
            job("0001", "2024-01-01 10:00:00", "ls", &["-l", "/tmp"]),
        ]
    );
}

#[test]
fn schedule_job_refuses_a_time_that_is_no_time() {
    let now = at(2024, 1, 1, 8, 0, 0);
    let mut store = JobStore::new();
    schedule_job(&mut store, "+1h", "date", &Vec::new(), now, 7).expect("a job");
    let before = store.list_all().clone();
    for bad in ["", "1h", "+1w", "@25pm", "@M13", "tomorrow", "+1h.", "@Y2023.M2.D29"] {
        assert_eq!(
            schedule_job(&mut store, bad, "date", &Vec::new(), now, 9),
            Err(AddError::InvalidTime)
        );
    }
    assert_eq!(store.list_all(), &before);
}

#[test]
fn schedule_job_refuses_a_time_not_after_now() {
    let now = at(2024, 1, 1, 8, 0, 0);
    let mut store = JobStore::new();
    assert_eq!(schedule_job(&mut store, "+0s", "date", &Vec::new(), now, 9), Err(AddError::InPast));
    assert_eq!(schedule_job(&mut store, "+-1s", "date", &Vec::new(), now, 9), Err(AddError::InPast));
    assert_eq!(schedule_job(&mut store, "@h7", "date", &Vec::new(), now, 9), Err(AddError::InPast));
    assert_eq!(schedule_job(&mut store, "@Y2023", "date", &Vec::new(), now, 9), Err(AddError::InPast));
    assert_eq!(schedule_job(&mut store, "@h8", "date", &Vec::new(), now, 9), Err(AddError::InPast));
    assert_eq!(store.len(), 0);
    assert_eq!(schedule_job(&mut store, "+1s", "date", &Vec::new(), now, 9), Ok("0009".to_string()));
    assert_eq!(store.len(), 1);
}

#[test]
fn add_job_draws_an_id() {
    let now = at(2024, 1, 1, 8, 0, 0);
    let mut store = JobStore::new();
    let id = add_job(&mut store, "+1h", "date", &vec!["-u".to_string()], now).expect("a job");
    assert_eq!(id.len(), 4);
    assert!(id.chars().all(|c| c.is_ascii_digit() || ('a'..='f').contains(&c)));
    assert_eq!(store.list_all(), &vec![job(&id, "2024-01-01 09:00:00", "date", &["-u"])]);
    assert_eq!(add_job(&mut store, "soon", "date", &Vec::new(), now), Err(AddError::InvalidTime));
    assert_eq!(add_job(&mut store, "+0s", "date", &Vec::new(), now), Err(AddError::InPast));
    assert_eq!(store.len(), 1);
}

#[test]
fn add_job_draws_more_than_one_id() {
    let now = at(2024, 1, 1, 8, 0, 0);
    let mut store = JobStore::new();
    let mut seen = Vec::new();
    for _ in 0..64 {
        let id = add_job(&mut store, "+1h", "date", &Vec::new(), now).expect("a job");
        if !seen.contains(&id) {
            seen.push(id);
        }
    }
    assert!(seen.len() > 1);
    assert_eq!(store.len(), 64);
}

#[test]
fn first_job_is_a_copy_of_the_earliest() {
    let mut store = JobStore::new();
    store.insert(job("late", "2024-06-01 00:00:00", "b", &["x", "y"]));
    store.insert(job("soon", "2024-01-01 00:00:00", "a", &["1", "2", "3"]));
    assert_eq!(
        get_first_job(&store),
        Some(job("soon", "2024-01-01 00:00:00", "a", &["1", "2", "3"]))
    );
    assert_eq!(store.len(), 2);
    let first = job("soon", "2024-01-01 00:00:00", "a", &["1", "2", "3"]);
    assert_eq!(first.duplicate(), first);
    assert_eq!(first.due_time(), Some(at(2024, 1, 1, 0, 0, 0)));
    assert_eq!(job("x", "soon", "a", &[]).due_time(), None);
}

#[test]
fn rows_show_id_time_and_command() {
    assert_eq!(
        format_row(&job("00a7", "2024-01-01 09:00:00", "ls", &["-l", "/tmp"])),
        "00a7\t2024-01-01 09:00:00\tls -l /tmp"
    );
    assert_eq!(format_row(&job("1", "t", "date", &[])), "1\tt\tdate ");
    assert_eq!(join_words(&Vec::new()), "");
    assert_eq!(join_words(&vec!["a".to_string()]), "a");
    assert_eq!(join_words(&vec!["a".to_string(), "".to_string(), "b c".to_string()]), "a  b c");
}

#[test]
fn list_has_a_heading_and_a_row_for_each_job() {
    let mut store = JobStore::new();
    assert_eq!(list_jobs(&store), vec!["ID  \tTIME               \tCOMMAND".to_string()]);
    store.insert(job("b", "2024-01-01 10:00:00", "echo", &["hi"]));
    store.insert(job("a", "2024-01-01 09:00:00", "date", &[]));
    assert_eq!(
        list_jobs(&store),
        vec![
            "ID  \tTIME               \tCOMMAND".to_string(),
            "a\t2024-01-01 09:00:00\tdate ".to_string(),
            "b\t2024-01-01 10:00:00\techo hi".to_string(),
        ]
    );
}
