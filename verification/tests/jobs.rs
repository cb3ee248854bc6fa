use fung::jobs::{
    is_interrupted_capture_job, job_status_update, latest_jobs, Job, JobState,
    INTERRUPTED_CAPTURE_MESSAGE, MAX_LISTED_JOBS,
};

fn job(id: &str, created_at: &str) -> Job {
    Job {
        id: id.to_string(),
        project_id: "p1".to_string(),
        job_type: "import.transcribe".to_string(),
        status: "queued".to_string(),
        progress: 0,
        input_refs: Vec::new(),
        output_refs: Vec::new(),
        provider_id: None,
        error_code: None,
        error_message: None,
        started_at: None,
        finished_at: None,
        created_at: created_at.to_string(),
        updated_at: created_at.to_string(),
    }
}

#[test]
fn the_job_list_is_newest_first_and_bounded() {
    let jobs = vec![
        job("a", "2026-01-01T10:00:00Z"),
        job("b", "2026-03-01T10:00:00Z"),
        job("c", "2026-02-01T10:00:00Z"),
        job("d", "2026-03-01T10:00:00Z"),
    ];
    let listed = latest_jobs(jobs);
    let ids: Vec<&str> = listed.iter().map(|j| j.id.as_str()).collect();
    assert_eq!(ids, vec!["b", "d", "c", "a"], "ties keep the order read");

    let many: Vec<Job> = (0..40).map(|k| job(&format!("j{k:02}"), &format!("2026-01-01T10:00:{k:02}Z"))).collect();
    let listed = latest_jobs(many);
    assert_eq!(listed.len(), MAX_LISTED_JOBS);
    assert_eq!(listed[0].id, "j39");
    assert_eq!(listed[29].id, "j10");
    assert!(latest_jobs(Vec::new()).is_empty());
}

#[test]
fn a_status_change_stamps_start_and_finish() {
    let fresh = JobState { progress: 5, started_at: None, finished_at: None };
    let running = job_status_update(&fresh, "running", None, None, "t1");
    assert_eq!(running.started_at.as_deref(), Some("t1"));
    assert_eq!(running.finished_at, None);
    assert_eq!(running.progress, 5);
    assert_eq!(running.event_message, "running");

    let started = JobState { progress: 40, started_at: Some("t1".to_string()), finished_at: None };
    let again = job_status_update(&started, "running", Some(60), None, "t2");
    assert_eq!(again.started_at.as_deref(), Some("t1"), "a job starts once");
    assert_eq!(again.progress, 60);

    let failed = job_status_update(&started, "failed", None, Some("disk full"), "t3");
    assert_eq!(failed.finished_at.as_deref(), Some("t3"));
    assert_eq!(failed.error_message.as_deref(), Some("disk full"));
    assert_eq!(failed.event_message, "disk full");
    assert_eq!(failed.status, "failed");

    let done = job_status_update(&started, "completed", Some(100), None, "t4");
    assert_eq!(done.finished_at.as_deref(), Some("t4"));
    assert_eq!(done.error_message, None);
}

#[test]
fn only_unfinished_capture_jobs_are_interrupted() {
    for status in ["queued", "running", "paused", "retrying"] {
        assert!(is_interrupted_capture_job(Some("recording.capture"), Some(status)));
    }
    assert!(!is_interrupted_capture_job(Some("recording.capture"), Some("completed")));
    assert!(!is_interrupted_capture_job(Some("import.transcribe"), Some("running")));
    assert!(!is_interrupted_capture_job(None, Some("running")));
    assert!(!is_interrupted_capture_job(Some("recording.capture"), None));
    assert_eq!(INTERRUPTED_CAPTURE_MESSAGE, "interrupted: desktop session was not shut down cleanly");
}
