use std::time::{Duration, SystemTime, UNIX_EPOCH};
use syncbox::{AppState, ChunkAction, ConnectionConfig, JobStatus, UploadFailure, remaining_bytes, now_secs};

fn cfg(id: &str, name: &str) -> ConnectionConfig {
    ConnectionConfig {
        id: id.to_string(),
        name: name.to_string(),
        host: "u1.example.com".to_string(),
        port: 23,
        username: "u1".to_string(),
        password: "SECRET-REDACTED".to_string(),
    }
}

fn names(s: &AppState) -> Vec<String> {
    s.saved_configs().iter().map(|c| c.name.clone()).collect()
}

#[test]
fn save_adds_then_replaces() {
    let mut s = AppState::new();
    s.save_connection(cfg("1", "first"));
    s.save_connection(cfg("2", "second"));
    s.save_connection(cfg("1", "renamed"));
    assert_eq!(names(&s), vec!["renamed", "second"]);
    s.save_connection(cfg("1", "renamed"));
    assert_eq!(names(&s), vec!["renamed", "second"]);
}

#[test]
fn save_replaces_only_the_first_duplicate() {
    let mut s = AppState::new();
    s.set_saved_configs(vec![cfg("1", "a"), cfg("1", "b")]);
    s.save_connection(cfg("1", "c"));
    assert_eq!(names(&s), vec!["c", "b"]);
}

#[test]
fn delete_removes_every_match() {
    let mut s = AppState::new();
    s.set_saved_configs(vec![cfg("1", "a"), cfg("2", "b"), cfg("1", "c")]);
    s.delete_connection(&"1".to_string());
    assert_eq!(names(&s), vec!["b"]);
    s.delete_connection(&"9".to_string());
    assert_eq!(names(&s), vec!["b"]);
}

#[test]
fn save_then_delete_restores() {
    let mut s = AppState::new();
    s.save_connection(cfg("1", "a"));
    s.save_connection(cfg("2", "b"));
    s.delete_connection(&"2".to_string());
    assert_eq!(names(&s), vec!["a"]);
}

fn start(s: &mut AppState, files: &[&str], sizes: Vec<Option<u64>>, now: u64) -> String {
    s.start_upload_job(
        "c1".to_string(),
        "box".to_string(),
        files.iter().map(|f| f.to_string()).collect(),
        &sizes,
        "/remote/".to_string(),
        now,
        [now as u8; 16],
    )
}

#[test]
fn new_job_is_queued_with_known_total() {
    let mut s = AppState::new();
    let id = start(&mut s, &["/a", "/b", "/c"], vec![Some(10), None, Some(5)], 100);
    assert_eq!(id, "64646464-6464-4464-a464-646464646464");
    let jobs = s.all_jobs();
    assert_eq!(jobs.len(), 1);
    let j = &jobs[0];
    assert_eq!(j.id, id);
    assert_eq!(j.total_bytes, 15);
    assert_eq!(j.transferred_bytes, 0);
    assert_eq!(j.status, JobStatus::Queued);
    assert_eq!(j.started_at, 100);
    assert_eq!(j.finished_at, None);
    assert_eq!(j.current_file, "");
    assert_eq!(j.files, vec!["/a", "/b", "/c"]);
    assert_eq!(j.connection_name, "box");
}

#[test]
fn jobs_newest_first() {
    let mut s = AppState::new();
    let a = start(&mut s, &["/a"], vec![Some(1)], 10);
    let b = start(&mut s, &["/b"], vec![Some(1)], 30);
    let c = start(&mut s, &["/c"], vec![Some(1)], 20);
    let order: Vec<String> = s.all_jobs().into_iter().map(|j| j.id).collect();
    assert_eq!(order, vec![b, c, a]);
}

#[test]
fn upload_run_completes() {
    let mut s = AppState::new();
    let id = start(&mut s, &["/x/f1", "/"], vec![Some(300), Some(0)], 5);
    let mut run = s.begin_upload(id.clone());
    assert_eq!(run.total_bytes, 300);
    assert_eq!(s.all_jobs()[0].status, JobStatus::Running);
    let name = s.begin_file(&run, Some("f1".to_string()));
    assert_eq!(name, "f1");
    assert_eq!(s.all_jobs()[0].current_file, "f1");
    assert!(matches!(s.after_chunk(&mut run, 100, false, 10, 6), ChunkAction::Continue));
    assert_eq!(s.all_jobs()[0].transferred_bytes, 0);
    assert!(matches!(s.after_chunk(&mut run, 150, false, 300, 6), ChunkAction::Report));
    assert_eq!(s.all_jobs()[0].transferred_bytes, 250);
    assert_eq!(remaining_bytes(run.total_bytes, run.transferred), 50);
    let name = s.begin_file(&run, None);
    assert_eq!(name, "unknown");
    s.finish_upload(&run, 9);
    let j = &s.all_jobs()[0];
    assert_eq!(j.status, JobStatus::Completed);
    assert_eq!(j.transferred_bytes, 300);
    assert_eq!(j.finished_at, Some(9));
    s.jobs_are_consistent();
}

#[test]
fn upload_run_cancelled_mid_way() {
    let mut s = AppState::new();
    let id = start(&mut s, &["/f"], vec![Some(10)], 5);
    let mut run = s.begin_upload(id.clone());
    assert!(matches!(s.after_chunk(&mut run, 4, true, 0, 7), ChunkAction::Cancelled));
    let j = &s.all_jobs()[0];
    assert_eq!(j.status, JobStatus::Failed("Cancelled".to_string()));
    assert_eq!(j.finished_at, Some(7));
    assert_eq!(run.transferred, 4);
}

#[test]
fn cancel_only_fails_a_queued_job() {
    let mut s = AppState::new();
    let q = start(&mut s, &["/f"], vec![Some(10)], 5);
    let r = start(&mut s, &["/g"], vec![Some(10)], 4);
    s.mark_job_running(&r);
    s.cancel_job(&q, 8);
    s.cancel_job(&r, 8);
    s.cancel_job(&"missing".to_string(), 8);
    let jobs = s.all_jobs();
    assert_eq!(jobs[0].status, JobStatus::Failed("Cancelled".to_string()));
    assert_eq!(jobs[0].finished_at, Some(8));
    assert_eq!(jobs[1].status, JobStatus::Running);
    assert_eq!(jobs[1].finished_at, None);
}

#[test]
fn failures_carry_their_reason() {
    let mut s = AppState::new();
    let id = start(&mut s, &["/f"], vec![None], 5);
    s.fail_job(&id, UploadFailure::Open("No such file".to_string()), 6);
    assert_eq!(s.all_jobs()[0].status, JobStatus::Failed("Open error: No such file".to_string()));
    assert_eq!(UploadFailure::CreateRemote("e".to_string()).message(), "Create remote file error: e");
    assert_eq!(UploadFailure::Read("e".to_string()).message(), "Read error: e");
    assert_eq!(UploadFailure::Write("e".to_string()).message(), "Write error: e");
    assert_eq!(UploadFailure::Connect("TCP connect failed: x".to_string()).message(), "TCP connect failed: x");
    assert_eq!(UploadFailure::Channel("c".to_string()).message(), "c");
    assert_eq!(UploadFailure::Cancelled.message(), "Cancelled");
}

#[test]
fn remaining_never_below_zero() {
    assert_eq!(remaining_bytes(10, 4), 6);
    assert_eq!(remaining_bytes(10, 40), 0);
}

#[test]
fn clock_is_after_2020() {
    assert!(now_secs() > 1_600_000_000);
}

#[test]
fn clock_reading_to_seconds() {
    assert_eq!(syncbox::secs_since_epoch(Ok(Duration::from_millis(5999))), 5);
    let before = UNIX_EPOCH.duration_since(SystemTime::now() + Duration::from_secs(1));
    assert!(before.is_err());
    assert_eq!(syncbox::secs_since_epoch(before), 0);
}

#[test]
fn job_id_from_random_bytes() {
    let mut s = AppState::new();
    let bytes: [u8; 16] = [0, 0x11, 0x22, 0x33, 0x44, 0x55, 0xff, 0x77, 0x00, 0x99, 0xaa, 0xbb, 0xcc, 0xdd, 0xee, 0x0f];
    let id = s.start_upload_job("c".to_string(), "n".to_string(), vec![], &vec![], "/".to_string(), 1, bytes);
    assert_eq!(id, "00112233-4455-4f77-8099-aabbccddee0f");
    let id2 = s.start_upload_job("c".to_string(), "n".to_string(), vec![], &vec![], "/".to_string(), 2, [0; 16]);
    assert_eq!(id2, "00000000-0000-4000-8000-000000000000");
}

#[test]
fn connections_open_and_close() {
    let mut s = AppState::new();
    assert_eq!(s.connection(&"1".to_string()).unwrap_err(), "Not connected");
    s.add_connection(cfg("1", "first"));
    s.add_connection(cfg("2", "second"));
    s.add_connection(cfg("1", "again"));
    assert_eq!(s.connection(&"1".to_string()).unwrap().name, "again");
    assert_eq!(s.connection(&"2".to_string()).unwrap().name, "second");
    s.remove_connection(&"1".to_string());
    assert_eq!(s.connection(&"1".to_string()).unwrap_err(), "Not connected");
    assert_eq!(s.connection(&"2".to_string()).unwrap().name, "second");
    assert!(s.saved_configs().is_empty());
}
