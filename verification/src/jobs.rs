//! Background jobs: how a status change is recorded, which jobs the list
//! shows, and which capture jobs a restart finds interrupted.
use vstd::prelude::*;
use crate::text::{chars_lt, copy_string, opt_chars, str_eq, str_lt};

verus! {

/// A job as the interface lists it.
#[derive(Debug)]
pub struct Job {
    pub id: String,
    pub project_id: String,
    pub job_type: String,
    pub status: String,
    pub progress: i64,
    pub input_refs: Vec<String>,
    pub output_refs: Vec<String>,
    pub provider_id: Option<String>,
    pub error_code: Option<String>,
    pub error_message: Option<String>,
    pub started_at: Option<String>,
    pub finished_at: Option<String>,
    pub created_at: String,
    pub updated_at: String,
}

/// At most this many jobs are listed.
pub const MAX_LISTED_JOBS: usize = 30;

/// `a` sorts no earlier than `b` by creation time, newest first.
pub open spec fn not_older(a: Job, b: Job) -> bool {
    !chars_lt(a.created_at@, b.created_at@)
}

/// `x` placed into the newest-first `v`, after every job created no earlier
/// than it.
pub open spec fn insert_newest_job(v: Seq<Job>, x: Job) -> Seq<Job>
    decreases v.len(),
{
    if v.len() == 0 {
        seq![x]
    } else if not_older(v.last(), x) {
        v.push(x)
    } else {
        insert_newest_job(v.drop_last(), x).push(v.last())
    }
}

/// The jobs newest first by creation time; jobs created at the same time
/// keep their order.
pub open spec fn newest_jobs(jobs: Seq<Job>) -> Seq<Job>
    decreases jobs.len(),
{
    if jobs.len() == 0 {
        jobs
    } else {
        insert_newest_job(newest_jobs(jobs.drop_last()), jobs.last())
    }
}

pub open spec fn is_newest_first(v: Seq<Job>) -> bool {
    forall|i: int, j: int| 0 <= i <= j < v.len() ==> not_older(#[trigger] v[i], #[trigger] v[j])
}

/// What the job list shows: the newest `MAX_LISTED_JOBS` jobs, newest first.
pub open spec fn listed_jobs(jobs: Seq<Job>) -> Seq<Job> {
    let sorted = newest_jobs(jobs);
    if sorted.len() <= MAX_LISTED_JOBS {
        sorted
    } else {
        sorted.take(MAX_LISTED_JOBS as int)
    }
}

proof fn lemma_not_older_transitive(a: Job, b: Job, c: Job)
    requires
        not_older(a, b),
        not_older(b, c),
    ensures
        not_older(a, c),
{
    if chars_lt(a.created_at@, c.created_at@) {
        if b.created_at@ == c.created_at@ {
        } else {
            crate::text::lemma_chars_lt_total(b.created_at@, c.created_at@);
            if chars_lt(c.created_at@, b.created_at@) {
                crate::text::lemma_chars_lt_transitive(a.created_at@, c.created_at@, b.created_at@);
            }
        }
    }
}

proof fn lemma_insert_past_newer(v: Seq<Job>, x: Job, j: int)
    requires
        0 <= j <= v.len(),
        forall|k: int| j <= k < v.len() ==> !not_older(#[trigger] v[k], x),
    ensures
        insert_newest_job(v, x) == insert_newest_job(v.take(j), x) + v.skip(j),
    decreases v.len() - j,
{
    if j < v.len() {
        let w = v.drop_last();
        assert(!not_older(v.last(), x));
        assert forall|k: int| j <= k < w.len() implies !not_older(#[trigger] w[k], x) by {
            assert(w[k] == v[k]);
        }
        lemma_insert_past_newer(w, x, j);
        assert(w.take(j) =~= v.take(j));
        assert(w.skip(j).push(v.last()) =~= v.skip(j));
        assert((insert_newest_job(v.take(j), x) + w.skip(j)).push(v.last())
            =~= insert_newest_job(v.take(j), x) + v.skip(j));
    } else {
        assert(v.take(j) =~= v);
        assert(insert_newest_job(v, x) + v.skip(j) =~= insert_newest_job(v, x));
    }
}

proof fn lemma_insert_keeps_order(v: Seq<Job>, x: Job)
    requires
        is_newest_first(v),
    ensures
        is_newest_first(insert_newest_job(v, x)),
        insert_newest_job(v, x).len() == v.len() + 1,
        forall|k: int|
            0 <= k < insert_newest_job(v, x).len() ==> #[trigger] insert_newest_job(v, x)[k] == x
                || v.contains(insert_newest_job(v, x)[k]),
    decreases v.len(),
{
    if v.len() == 0 {
        assert(is_newest_first(seq![x])) by {
            crate::text::lemma_chars_lt_irreflexive(x.created_at@);
        }
    } else if not_older(v.last(), x) {
        let r = v.push(x);
        assert forall|i: int, j: int| 0 <= i <= j < r.len() implies not_older(
            #[trigger] r[i],
            #[trigger] r[j],
        ) by {
            if j == v.len() {
                if i == j {
                    crate::text::lemma_chars_lt_irreflexive(x.created_at@);
                } else {
                    assert(not_older(v[i], v[v.len() - 1]));
                    lemma_not_older_transitive(v[i], v.last(), x);
                }
            } else {
                assert(r[i] == v[i] && r[j] == v[j]);
            }
        }
        assert forall|k: int| 0 <= k < r.len() implies #[trigger] r[k] == x || v.contains(r[k]) by {
            if k < v.len() {
                assert(r[k] == v[k]);
            }
        }
    } else {
        let w = v.drop_last();
        assert(is_newest_first(w)) by {
            assert forall|i: int, j: int| 0 <= i <= j < w.len() implies not_older(
                #[trigger] w[i],
                #[trigger] w[j],
            ) by {
                assert(w[i] == v[i] && w[j] == v[j]);
            }
        }
        lemma_insert_keeps_order(w, x);
        let r0 = insert_newest_job(w, x);
        let r = r0.push(v.last());
        crate::text::lemma_chars_lt_asymmetric(v.last().created_at@, x.created_at@);
        assert forall|k: int| 0 <= k < r0.len() implies not_older(#[trigger] r0[k], v.last()) by {
            if r0[k] != x {
                let m = choose|m: int| 0 <= m < w.len() && w[m] == r0[k];
                assert(not_older(v[m], v[v.len() - 1]));
            }
        }
        assert forall|i: int, j: int| 0 <= i <= j < r.len() implies not_older(
            #[trigger] r[i],
            #[trigger] r[j],
        ) by {
            if j == r0.len() {
                if i == j {
                    crate::text::lemma_chars_lt_irreflexive(v.last().created_at@);
                } else {
                    assert(r[i] == r0[i]);
                }
            } else {
                assert(r[i] == r0[i] && r[j] == r0[j]);
            }
        }
        assert forall|k: int| 0 <= k < r.len() implies #[trigger] r[k] == x || v.contains(r[k]) by {
            if k < r0.len() {
                if r0[k] != x {
                    let m = choose|m: int| 0 <= m < w.len() && w[m] == r0[k];
                    assert(v[m] == r0[k]);
                }
            } else {
                assert(v[v.len() - 1] == v.last());
            }
        }
    }
}

/// Jobs come out newest first, each a job that was read, as many as were
/// read.
pub proof fn law_jobs_come_out_newest_first(jobs: Seq<Job>)
    ensures
        is_newest_first(newest_jobs(jobs)),
        newest_jobs(jobs).len() == jobs.len(),
        forall|k: int| 0 <= k < jobs.len() ==> jobs.contains(#[trigger] newest_jobs(jobs)[k]),
    decreases jobs.len(),
{
    if jobs.len() > 0 {
        let w = jobs.drop_last();
        law_jobs_come_out_newest_first(w);
        lemma_insert_keeps_order(newest_jobs(w), jobs.last());
        let r = newest_jobs(jobs);
        assert forall|k: int| 0 <= k < jobs.len() implies jobs.contains(#[trigger] r[k]) by {
            if r[k] == jobs.last() {
                assert(jobs[jobs.len() - 1] == jobs.last());
            } else {
                let m = choose|m: int| 0 <= m < newest_jobs(w).len() && newest_jobs(w)[m] == r[k];
                let q = choose|q: int| 0 <= q < w.len() && w[q] == newest_jobs(w)[m];
                assert(jobs[q] == w[q]);
            }
        }
    }
}

fn insert_job(v: &mut Vec<Job>, x: Job)
    requires
        is_newest_first(old(v)@),
    ensures
        final(v)@ == insert_newest_job(old(v)@, x),
{
    let ghost v0 = v@;
    let mut j: usize = v.len();
    while j > 0 && str_lt(v[j - 1].created_at.as_str(), x.created_at.as_str())
        invariant
            j <= v0.len(),
            v@ == v0,
            forall|k: int| j <= k < v0.len() ==> !not_older(#[trigger] v0[k], x),
        decreases j,
    {
        j -= 1;
    }
    proof {
        lemma_insert_past_newer(v0, x, j as int);
        if j > 0 {
            let t = v0.take(j as int);
            assert(t.last() == v0[j - 1]);
            assert(insert_newest_job(t, x) == t.push(x));
        } else {
            assert(v0.take(0) =~= Seq::<Job>::empty());
        }
        assert(v0.take(j as int).push(x) + v0.skip(j as int) =~= v0.insert(j as int, x));
    }
    v.insert(j, x);
}

/// The job list: the newest `MAX_LISTED_JOBS` jobs by creation time, newest
/// first; jobs created at the same time keep the order they were read in.
pub fn latest_jobs(jobs: Vec<Job>) -> (res: Vec<Job>)
    ensures
        res@ == listed_jobs(jobs@),
{
    let ghost all = jobs@;
    let mut sorted: Vec<Job> = Vec::new();
    let mut rest = jobs;
    let mut taken: usize = 0;
    let n = rest.len();
    while rest.len() > 0
        invariant
            taken + rest@.len() == n,
            n == all.len(),
            rest@ == all.skip(taken as int),
            sorted@ == newest_jobs(all.take(taken as int)),
            is_newest_first(sorted@),
        decreases rest.len(),
    {
        let x = rest.remove(0);
        proof {
            assert(x == all[taken as int]);
            assert(all.take(taken + 1).drop_last() =~= all.take(taken as int));
            assert(all.take(taken + 1).last() == x);
            lemma_insert_keeps_order(sorted@, x);
        }
        insert_job(&mut sorted, x);
        taken += 1;
        assert(rest@ =~= all.skip(taken as int));
    }
    assert(all.take(n as int) =~= all);
    sorted.truncate(MAX_LISTED_JOBS);
    sorted
}

/// Where a job stands before its status changes.
#[derive(Debug)]
pub struct JobState {
    pub progress: i64,
    pub started_at: Option<String>,
    pub finished_at: Option<String>,
}

/// What a status change writes: the job's new status, progress, message and
/// times, and the message of the event that records it.
#[derive(Debug)]
pub struct JobStatusUpdate {
    pub status: String,
    pub progress: i64,
    pub error_message: Option<String>,
    pub started_at: Option<String>,
    pub finished_at: Option<String>,
    pub event_message: String,
}

/// When a job started, after its status is set to `status` at `timestamp`:
/// the first time it runs.
pub open spec fn next_started(started: Option<Seq<char>>, status: Seq<char>, timestamp: Seq<char>) -> Option<
    Seq<char>,
> {
    if status == "running"@ && started is None {
        Some(timestamp)
    } else {
        started
    }
}

/// When a job finished, after its status is set to `status` at
/// `timestamp`: each time it completes or fails.
pub open spec fn next_finished(finished: Option<Seq<char>>, status: Seq<char>, timestamp: Seq<char>) -> Option<
    Seq<char>,
> {
    if status == "completed"@ || status == "failed"@ {
        Some(timestamp)
    } else {
        finished
    }
}

/// A job starts once: whatever its status becomes after it first runs,
/// its start time stays the time it first ran.
pub proof fn law_a_job_starts_once(
    started: Option<Seq<char>>,
    first_run: Seq<char>,
    later_status: Seq<char>,
    later: Seq<char>,
)
    requires
        started is None,
    ensures
        next_started(next_started(started, "running"@, first_run), later_status, later) == Some(
            first_run,
        ),
{
}

/// A job's status change at `timestamp`: a job first set running starts
/// then; a job completed or failed finishes then; the progress is kept
/// unless a new one is given; the error message is the one given, none
/// when none is; the event says the message, or the status.
pub fn job_status_update(
    current: &JobState,
    status: &str,
    progress: Option<i64>,
    error_message: Option<&str>,
    timestamp: &str,
) -> (res: JobStatusUpdate)
    ensures
        res.status@ == status@,
        res.progress == match progress {
            Some(p) => p,
            None => current.progress,
        },
        opt_chars(res.error_message) == match error_message {
            Some(m) => Some(m@),
            None => None,
        },
        opt_chars(res.started_at) == next_started(opt_chars(current.started_at), status@, timestamp@),
        opt_chars(res.finished_at) == next_finished(
            opt_chars(current.finished_at),
            status@,
            timestamp@,
        ),
        res.event_message@ == match error_message {
            Some(m) => m@,
            None => status@,
        },
{
    let started_at = if str_eq(status, "running") && current.started_at.is_none() {
        Some(copy_string(timestamp))
    } else {
        crate::text::copy_opt_string(&current.started_at)
    };
    let finished_at = if str_eq(status, "completed") || str_eq(status, "failed") {
        Some(copy_string(timestamp))
    } else {
        crate::text::copy_opt_string(&current.finished_at)
    };
    JobStatusUpdate {
        status: copy_string(status),
        progress: match progress {
            Some(p) => p,
            None => current.progress,
        },
        error_message: match error_message {
            Some(m) => Some(copy_string(m)),
            None => None,
        },
        started_at,
        finished_at,
        event_message: copy_string(
            match error_message {
                Some(m) => m,
                None => status,
            },
        ),
    }
}

/// The message a capture job left unfinished by a crash is failed with.
pub const INTERRUPTED_CAPTURE_MESSAGE: &'static str =
    "interrupted: desktop session was not shut down cleanly";

/// A capture job a crash left unfinished: of type `recording.capture` and
/// still queued, running, paused or retrying. A missing field reads as
/// empty.
pub fn is_interrupted_capture_job(job_type: Option<&str>, status: Option<&str>) -> (res: bool)
    ensures
        res == (match job_type {
            Some(t) => t@ == "recording.capture"@,
            None => false,
        } && match status {
            Some(s) => s@ == "queued"@ || s@ == "running"@ || s@ == "paused"@ || s@ == "retrying"@,
            None => false,
        }),
{
    let capture = match job_type {
        Some(t) => str_eq(t, "recording.capture"),
        None => false,
    };
    let unfinished = match status {
        Some(s) => str_eq(s, "queued") || str_eq(s, "running") || str_eq(s, "paused") || str_eq(
            s,
            "retrying",
        ),
        None => false,
    };
    capture && unfinished
}

} // verus!
