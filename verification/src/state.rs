//! The application state that outlives a single command: the saved
//! connection settings and the upload jobs, keyed by their ids.
use vstd::prelude::*;

use crate::config::{
    find_config, first_with_id, upsert_config, upsert_into, without_id, without_id_vec,
    ConnectionConfig,
};
use crate::jobs::{
    cancelled_text, failure_text, job_wf, uuid_from_random_bytes, uuid_text_is_random_uuid, uuid_text_of, random_uuid_text, string_views, JobStatus,
    JobView, StatusView, UploadFailure, UploadJob,
};
use crate::order::{lemma_stable_insert, lemma_stable_sorted_empty, stable_sorted, total_preorder};

verus! {

/// Ids are unique and every job is well formed.
pub open spec fn jobs_wf(js: Seq<UploadJob>) -> bool {
    &&& forall|i: int, j: int|
        0 <= i < j < js.len() ==> (#[trigger] js[i]).id@ != (#[trigger] js[j]).id@
    &&& forall|i: int| 0 <= i < js.len() ==> job_wf(#[trigger] js[i])
}

pub open spec fn job_views(js: Seq<UploadJob>) -> Seq<JobView> {
    js.map_values(|j: UploadJob| j@)
}

/// Ids are unique, each finished job carries the time it finished, and a job
/// that still waits carries none.
pub open spec fn jobs_consistent(js: Seq<JobView>) -> bool {
    &&& forall|i: int, j: int| 0 <= i < j < js.len() ==> (#[trigger] js[i]).id != (#[trigger] js[j]).id
    &&& forall|i: int|
        0 <= i < js.len() ==> crate::jobs::is_finished((#[trigger] js[i]).status) ==> js[i].finished_at is Some
    &&& forall|i: int|
        0 <= i < js.len() ==> (#[trigger] js[i]).status is Queued ==> js[i].finished_at is None
}

/// The position of the job with the given id.
pub open spec fn job_index(js: Seq<JobView>, id: Seq<char>) -> Option<int>
    decreases js.len(),
{
    if js.len() == 0 {
        None
    } else if js[0].id == id {
        Some(0)
    } else {
        match job_index(js.drop_first(), id) {
            Some(k) => Some(k + 1),
            None => None,
        }
    }
}

pub proof fn lemma_job_index(js: Seq<JobView>, id: Seq<char>)
    ensures
        match job_index(js, id) {
            Some(i) => 0 <= i < js.len() && js[i].id == id && forall|j: int|
                0 <= j < i ==> (#[trigger] js[j]).id != id,
            None => forall|j: int| 0 <= j < js.len() ==> (#[trigger] js[j]).id != id,
        },
    decreases js.len(),
{
    if js.len() > 0 {
        lemma_job_index(js.drop_first(), id);
        if js[0].id != id {
            assert forall|j: int| 0 < j < js.len() implies (#[trigger] js[j]) == js.drop_first()[j
                - 1] by {}
        }
    }
}

/// The jobs after `f` is applied to the job with id `id`, if there is one.
pub open spec fn update_job(js: Seq<JobView>, id: Seq<char>, f: spec_fn(JobView) -> JobView) -> Seq<
    JobView,
> {
    match job_index(js, id) {
        Some(i) => js.update(i, f(js[i])),
        None => js,
    }
}

/// The jobs after storing `j` under its id: it replaces the job with the
/// same id, or is added.
pub open spec fn insert_job(js: Seq<JobView>, j: JobView) -> Seq<JobView> {
    match job_index(js, j.id) {
        Some(i) => js.update(i, j),
        None => js.push(j),
    }
}

/// The sum of the sizes that are known.
pub open spec fn known_total(sizes: Seq<Option<u64>>) -> nat
    decreases sizes.len(),
{
    if sizes.len() == 0 {
        0
    } else {
        known_total(sizes.drop_last()) + match sizes.last() {
            Some(s) => s as nat,
            None => 0,
        }
    }
}

/// Newest first.
pub open spec fn newest_first() -> spec_fn(JobView, JobView) -> bool {
    |a: JobView, b: JobView| a.started_at >= b.started_at
}

pub open spec fn with_status(s: StatusView) -> spec_fn(JobView) -> JobView {
    |j: JobView| JobView { status: s, ..j }
}

pub open spec fn with_file(name: Seq<char>) -> spec_fn(JobView) -> JobView {
    |j: JobView| JobView { current_file: name, ..j }
}

pub open spec fn with_transferred(bytes: u64) -> spec_fn(JobView) -> JobView {
    |j: JobView| JobView { transferred_bytes: bytes, ..j }
}

pub open spec fn completed_at(now: u64) -> spec_fn(JobView) -> JobView {
    |j: JobView|
        JobView {
            status: StatusView::Completed,
            transferred_bytes: j.total_bytes,
            finished_at: Some(now),
            ..j
        }
}

/// `after` is `before` failed with a reason that reads `text`, at `now`.
pub open spec fn failed_as(before: JobView, after: JobView, text: Seq<char>, now: u64) -> bool {
    after == JobView { status: StatusView::Failed(text), finished_at: Some(now), ..before }
}

/// `after` is `before` with the job `id` failed with a reason that reads
/// `text`, at `now`; nothing else changes.
pub open spec fn job_failed(
    before: Seq<JobView>,
    after: Seq<JobView>,
    id: Seq<char>,
    text: Seq<char>,
    now: u64,
) -> bool {
    match job_index(before, id) {
        Some(i) => {
            &&& after.len() == before.len()
            &&& failed_as(before[i], after[i], text, now)
            &&& forall|k: int| 0 <= k < before.len() && k != i ==> after[k] == before[k]
        },
        None => after == before,
    }
}

/// The answer for a connection that is not open.
pub open spec fn not_connected_text() -> Seq<char> {
    "Not connected"@
}

pub struct AppState {
    saved_configs: Vec<ConnectionConfig>,
    connections: Vec<ConnectionConfig>,
    jobs: Vec<UploadJob>,
}

impl AppState {
    #[verifier::type_invariant]
    spec fn inv(self) -> bool {
        jobs_wf(self.jobs@)
    }

    /// The saved connection settings, in order.
    pub closed spec fn saved(self) -> Seq<ConnectionConfig> {
        self.saved_configs@
    }

    /// The settings of the open connections, in the order they were opened.
    pub closed spec fn connections(self) -> Seq<ConnectionConfig> {
        self.connections@
    }

    /// The upload jobs, in the order they were first stored.
    pub closed spec fn jobs(self) -> Seq<JobView> {
        job_views(self.jobs@)
    }

    proof fn lemma_views(self)
        requires
            jobs_wf(self.jobs@),
        ensures
            self.jobs().len() == self.jobs@.len(),
            forall|i: int| 0 <= i < self.jobs@.len() ==> #[trigger] self.jobs()[i] == self.jobs@[i]@,
            forall|i: int, j: int|
                0 <= i < j < self.jobs().len() ==> (#[trigger] self.jobs()[i]).id != (
                #[trigger] self.jobs()[j]).id,
            jobs_consistent(self.jobs()),
    {
        assert forall|i: int| 0 <= i < self.jobs().len() implies crate::jobs::is_finished(
            (#[trigger] self.jobs()[i]).status,
        ) ==> self.jobs()[i].finished_at is Some by {
            assert(job_wf(self.jobs@[i]));
        }
        assert forall|i: int| 0 <= i < self.jobs().len() implies (#[trigger] self.jobs()[i]).status
            is Queued ==> self.jobs()[i].finished_at is None by {
            assert(job_wf(self.jobs@[i]));
        }
    }

    /// Every state reachable through this interface keeps its jobs
    /// consistent: ids are unique, a job that completed or failed carries the
    /// time it finished, and a job that still waits carries none.
    pub fn jobs_are_consistent(&self)
        ensures
            jobs_consistent(self.jobs()),
    {
        proof {
            use_type_invariant(self);
            self.lemma_views();
        }
    }

    /// An empty state: no saved settings, no open connections, no jobs.
    pub fn new() -> (s: Self)
        ensures
            s.saved() == Seq::<ConnectionConfig>::empty(),
            s.connections() == Seq::<ConnectionConfig>::empty(),
            s.jobs() == Seq::<JobView>::empty(),
    {
        let s = AppState { saved_configs: Vec::new(), connections: Vec::new(), jobs: Vec::new() };
        assert(s.jobs() =~= Seq::<JobView>::empty());
        s
    }

    /// The saved connection settings.
    pub fn saved_configs(&self) -> (r: &Vec<ConnectionConfig>)
        ensures
            r@ == self.saved(),
    {
        &self.saved_configs
    }

    /// Replaces the saved settings with those just read from storage.
    pub fn set_saved_configs(&mut self, configs: Vec<ConnectionConfig>)
        ensures
            final(self).saved() == configs@,
            final(self).jobs() == old(self).jobs(),
            final(self).connections() == old(self).connections(),
    {
        proof {
            use_type_invariant(&*self);
        }
        self.saved_configs = configs;
    }

    /// Saves `config`: it replaces the first saved setting with the same id,
    /// or is added at the end.
    pub fn save_connection(&mut self, config: ConnectionConfig)
        ensures
            final(self).saved() == upsert_config(old(self).saved(), config),
            final(self).jobs() == old(self).jobs(),
            final(self).connections() == old(self).connections(),
    {
        proof {
            use_type_invariant(&*self);
        }
        let mut cs: Vec<ConnectionConfig> = Vec::new();
        std::mem::swap(&mut cs, &mut self.saved_configs);
        upsert_into(&mut cs, config);
        self.saved_configs = cs;
    }

    /// Deletes every saved setting with the id `id`.
    pub fn delete_connection(&mut self, id: &String)
        ensures
            final(self).saved() == without_id(old(self).saved(), id@),
            final(self).jobs() == old(self).jobs(),
            final(self).connections() == old(self).connections(),
    {
        proof {
            use_type_invariant(&*self);
        }
        let kept = without_id_vec(&self.saved_configs, id);
        self.saved_configs = kept;
    }

    /// Records an open connection with the settings `config`, replacing the
    /// one open under the same id.
    pub fn add_connection(&mut self, config: ConnectionConfig)
        ensures
            final(self).connections() == upsert_config(old(self).connections(), config),
            final(self).saved() == old(self).saved(),
            final(self).jobs() == old(self).jobs(),
    {
        proof {
            use_type_invariant(&*self);
        }
        let mut cs: Vec<ConnectionConfig> = Vec::new();
        std::mem::swap(&mut cs, &mut self.connections);
        upsert_into(&mut cs, config);
        self.connections = cs;
    }

    /// Forgets the connection open under the id `id`, if any.
    pub fn remove_connection(&mut self, id: &String)
        ensures
            final(self).connections() == without_id(old(self).connections(), id@),
            final(self).saved() == old(self).saved(),
            final(self).jobs() == old(self).jobs(),
    {
        proof {
            use_type_invariant(&*self);
        }
        let kept = without_id_vec(&self.connections, id);
        self.connections = kept;
    }

    /// The settings of the connection open under the id `id`, or the answer
    /// "Not connected" when there is none.
    pub fn connection(&self, id: &String) -> (r: Result<&ConnectionConfig, String>)
        ensures
            match first_with_id(self.connections(), id@) {
                Some(i) => r is Ok && *r->Ok_0 == self.connections()[i],
                None => r is Err && r->Err_0@ == not_connected_text(),
            },
    {
        match find_config(&self.connections, id) {
            Some(i) => Ok(&self.connections[i]),
            None => Err(String::from_str("Not connected")),
        }
    }

    fn find_job(&self, id: &String) -> (r: Option<usize>)
        ensures
            match r {
                Some(i) => job_index(self.jobs(), id@) == Some(i as int) && i < self.jobs@.len(),
                None => job_index(self.jobs(), id@) is None,
            },
    {
        proof {
            use_type_invariant(self);
            self.lemma_views();
            lemma_job_index(self.jobs(), id@);
        }
        let mut i: usize = 0;
        while i < self.jobs.len()
            invariant
                i <= self.jobs.len(),
                jobs_wf(self.jobs@),
                forall|j: int| 0 <= j < i ==> (#[trigger] self.jobs()[j]).id != id@,
            decreases self.jobs.len() - i,
        {
            proof {
                self.lemma_views();
            }
            if self.jobs[i].id == *id {
                proof {
                    lemma_job_index(self.jobs(), id@);
                    match job_index(self.jobs(), id@) {
                        Some(k) => {
                            if k < i {
                                assert(self.jobs()[k].id != id@);
                            }
                            if k > i {
                                assert(self.jobs()[i as int].id == id@);
                            }
                        },
                        None => {
                            assert(self.jobs()[i as int].id == id@);
                        },
                    }
                }
                return Some(i);
            }
            i = i + 1;
        }
        proof {
            lemma_job_index(self.jobs(), id@);
            self.lemma_views();
            match job_index(self.jobs(), id@) {
                Some(k) => {
                    assert(self.jobs()[k].id != id@);
                },
                None => {},
            }
        }
        None
    }

    fn replace_job(&mut self, i: usize, job: UploadJob)
        requires
            i < old(self).jobs@.len(),
            job.id@ == old(self).jobs@[i as int].id@,
            job_wf(job),
        ensures
            final(self).jobs() == old(self).jobs().update(i as int, job@),
            final(self).saved() == old(self).saved(),
            final(self).connections() == old(self).connections(),
    {
        proof {
            use_type_invariant(&*self);
        }
        let mut js: Vec<UploadJob> = Vec::new();
        std::mem::swap(&mut js, &mut self.jobs);
        let ghost before = js@;
        js.set(i, job);
        assert forall|a: int, b: int| 0 <= a < b < js@.len() implies (#[trigger] js@[a]).id@ != (
        #[trigger] js@[b]).id@ by {
            assert(before[a].id@ != before[b].id@);
        }
        assert forall|a: int| 0 <= a < js@.len() implies job_wf(#[trigger] js@[a]) by {
            if a != i {
                assert(job_wf(before[a]));
            }
        }
        self.jobs = js;
        assert(self.jobs() =~= job_views(before).update(i as int, job@));
    }

    /// The job `id` starts running.
    pub fn mark_job_running(&mut self, id: &String)
        ensures
            final(self).jobs() == update_job(old(self).jobs(), id@, with_status(StatusView::Running)),
            final(self).saved() == old(self).saved(),
            final(self).connections() == old(self).connections(),
    {
        proof {
            use_type_invariant(&*self);
            self.lemma_views();
        }
        if let Some(i) = self.find_job(id) {
            let mut job = self.jobs[i].clone();
            job.mark_running();
            self.replace_job(i, job);
        }
    }

    /// The job `id` moves on to the file `name`.
    pub fn set_job_file(&mut self, id: &String, name: String)
        ensures
            final(self).jobs() == update_job(old(self).jobs(), id@, with_file(name@)),
            final(self).saved() == old(self).saved(),
            final(self).connections() == old(self).connections(),
    {
        proof {
            use_type_invariant(&*self);
            self.lemma_views();
        }
        if let Some(i) = self.find_job(id) {
            let mut job = self.jobs[i].clone();
            job.set_current_file(name);
            self.replace_job(i, job);
        }
    }

    /// The job `id` has sent `bytes` bytes so far.
    pub fn record_job_transferred(&mut self, id: &String, bytes: u64)
        ensures
            final(self).jobs() == update_job(old(self).jobs(), id@, with_transferred(bytes)),
            final(self).saved() == old(self).saved(),
            final(self).connections() == old(self).connections(),
    {
        proof {
            use_type_invariant(&*self);
            self.lemma_views();
        }
        if let Some(i) = self.find_job(id) {
            let mut job = self.jobs[i].clone();
            job.record_transferred(bytes);
            self.replace_job(i, job);
        }
    }

    /// The job `id` completes at `now`, with all its bytes sent.
    pub fn complete_job(&mut self, id: &String, now: u64)
        ensures
            final(self).jobs() == update_job(old(self).jobs(), id@, completed_at(now)),
            final(self).saved() == old(self).saved(),
            final(self).connections() == old(self).connections(),
    {
        proof {
            use_type_invariant(&*self);
            self.lemma_views();
        }
        if let Some(i) = self.find_job(id) {
            let mut job = self.jobs[i].clone();
            job.complete(now);
            self.replace_job(i, job);
        }
    }

    /// The job `id` fails at `now` for the reason `failure` gives.
    pub fn fail_job(&mut self, id: &String, failure: UploadFailure, now: u64)
        ensures
            job_failed(old(self).jobs(), final(self).jobs(), id@, failure_text(failure), now),
            final(self).saved() == old(self).saved(),
            final(self).connections() == old(self).connections(),
    {
        proof {
            use_type_invariant(&*self);
            self.lemma_views();
        }
        if let Some(i) = self.find_job(id) {
            let mut job = self.jobs[i].clone();
            job.fail(failure.message(), now);
            self.replace_job(i, job);
        }
    }

    /// Cancelling the job `id`: a job that still waits fails as cancelled at
    /// `now`; a job that runs is stopped by its own loop, which sees the
    /// request; any other job stays as it is.
    pub fn cancel_job(&mut self, id: &String, now: u64)
        ensures
            match job_index(old(self).jobs(), id@) {
                Some(i) => if old(self).jobs()[i].status is Queued {
                    job_failed(old(self).jobs(), final(self).jobs(), id@, cancelled_text(), now)
                } else {
                    final(self).jobs() == old(self).jobs()
                },
                None => final(self).jobs() == old(self).jobs(),
            },
            final(self).saved() == old(self).saved(),
            final(self).connections() == old(self).connections(),
    {
        proof {
            use_type_invariant(&*self);
            self.lemma_views();
        }
        if let Some(i) = self.find_job(id) {
            if let JobStatus::Queued = self.jobs[i].status {
                let mut job = self.jobs[i].clone();
                job.cancel_if_queued(now);
                self.replace_job(i, job);
            }
        }
    }

    /// The total size of the job `id`; 0 when there is no such job.
    pub fn job_total_bytes(&self, id: &String) -> (r: u64)
        ensures
            r == match job_index(self.jobs(), id@) {
                Some(i) => self.jobs()[i].total_bytes,
                None => 0,
            },
    {
        proof {
            use_type_invariant(self);
            self.lemma_views();
        }
        match self.find_job(id) {
            Some(i) => self.jobs[i].total_bytes,
            None => 0,
        }
    }

    /// Stores `job` under its id, replacing the job with the same id.
    fn insert(&mut self, job: UploadJob)
        requires
            job_wf(job),
        ensures
            final(self).jobs() == insert_job(old(self).jobs(), job@),
            final(self).saved() == old(self).saved(),
            final(self).connections() == old(self).connections(),
    {
        proof {
            use_type_invariant(&*self);
            self.lemma_views();
        }
        match self.find_job(&job.id) {
            Some(i) => {
                proof {
                    lemma_job_index(self.jobs(), job.id@);
                }
                self.replace_job(i, job);
            },
            None => {
                proof {
                    lemma_job_index(self.jobs(), job.id@);
                }
                let mut js: Vec<UploadJob> = Vec::new();
                std::mem::swap(&mut js, &mut self.jobs);
                let ghost before = js@;
                js.push(job);
                assert forall|a: int, b: int| 0 <= a < b < js@.len() implies (#[trigger] js@[a]).id@
                    != (#[trigger] js@[b]).id@ by {
                    if b < before.len() {
                        assert(before[a].id@ != before[b].id@);
                    } else {
                        assert(job_views(before)[a].id != job.id@);
                    }
                }
                assert forall|a: int| 0 <= a < js@.len() implies job_wf(#[trigger] js@[a]) by {
                    if a < before.len() {
                        assert(job_wf(before[a]));
                    }
                }
                self.jobs = js;
                assert(self.jobs() =~= job_views(before).push(job@));
            },
        }
    }

    /// Queues a new upload of `local_paths` into `remote_path` over the
    /// connection `connection_id`, started at `now`. Its size is the sum of
    /// the sizes known of the files (`sizes`, one per file that could be
    /// measured). Its id is the UUID text built from the 16 `random` bytes,
    /// which is returned.
    pub fn start_upload_job(
        &mut self,
        connection_id: String,
        connection_name: String,
        local_paths: Vec<String>,
        sizes: &Vec<Option<u64>>,
        remote_path: String,
        now: u64,
        random: [u8; 16],
    ) -> (id: String)
        requires
            known_total(sizes@) <= u64::MAX,
        ensures
            id@ == uuid_text_of(random@),
            random_uuid_text(id@),
            final(self).jobs() == insert_job(
                old(self).jobs(),
                JobView {
                    id: id@,
                    connection_id: connection_id@,
                    connection_name: connection_name@,
                    remote_path: remote_path@,
                    files: string_views(local_paths@),
                    total_bytes: known_total(sizes@) as u64,
                    transferred_bytes: 0,
                    status: StatusView::Queued,
                    started_at: now,
                    finished_at: None,
                    current_file: Seq::empty(),
                },
            ),
            final(self).saved() == old(self).saved(),
            final(self).connections() == old(self).connections(),
    {
        let id = uuid_from_random_bytes(random);
        proof {
            uuid_text_is_random_uuid(random@);
        }
        let mut total: u64 = 0;
        let mut i: usize = 0;
        assert(sizes@.take(0) =~= Seq::<Option<u64>>::empty());
        while i < sizes.len()
            invariant
                i <= sizes.len(),
                known_total(sizes@) <= u64::MAX,
                total as nat == known_total(sizes@.take(i as int)),
            decreases sizes.len() - i,
        {
            assert(sizes@.take(i + 1).drop_last() =~= sizes@.take(i as int));
            proof {
                lemma_known_total_prefix(sizes@, i + 1);
            }
            if let Some(s) = sizes[i] {
                total = total + s;
            }
            i = i + 1;
        }
        assert(sizes@.take(sizes.len() as int) =~= sizes@);
        let job = UploadJob::queued(
            id.clone(),
            connection_id,
            connection_name,
            remote_path,
            local_paths,
            total,
            now,
        );
        self.insert(job);
        id
    }

    /// All jobs, newest first; jobs started at the same second keep the
    /// order in which they were stored.
    pub fn all_jobs(&self) -> (r: Vec<UploadJob>)
        ensures
            stable_sorted(job_views(r@), self.jobs(), newest_first()),
    {
        proof {
            use_type_invariant(self);
            self.lemma_views();
            lemma_newest_first_total();
            lemma_stable_sorted_empty(newest_first());
        }
        let mut out: Vec<UploadJob> = Vec::new();
        let mut i: usize = 0;
        assert(job_views(out@) =~= Seq::<JobView>::empty());
        assert(self.jobs().take(0) =~= Seq::<JobView>::empty());
        while i < self.jobs.len()
            invariant
                i <= self.jobs.len() == self.jobs().len(),
                forall|k: int| 0 <= k < self.jobs@.len() ==> #[trigger] self.jobs()[k] == self.jobs@[k]@,
                total_preorder(newest_first()),
                stable_sorted(job_views(out@), self.jobs().take(i as int), newest_first()),
            decreases self.jobs.len() - i,
        {
            let job = self.jobs[i].clone();
            let mut p: usize = 0;
            while p < out.len() && out[p].started_at >= job.started_at
                invariant
                    p <= out.len(),
                    forall|k: int| 0 <= k < p ==> (#[trigger] out@[k]).started_at >= job.started_at,
                decreases out.len() - p,
            {
                p = p + 1;
            }
            proof {
                let v = job_views(out@);
                let le = newest_first();
                assert forall|k: int| 0 <= k < p implies le(#[trigger] v[k], job@) by {
                    assert(out@[k].started_at >= job.started_at);
                }
                assert forall|k: int| p <= k < v.len() implies !le(#[trigger] v[k], job@) by {
                    if p < out.len() {
                        assert(!(out@[p as int].started_at >= job.started_at));
                        if k > p {
                            assert(le(v[p as int], v[k]));
                        }
                    }
                }
                lemma_stable_insert(v, self.jobs().take(i as int), job@, p as int, le);
                assert(self.jobs().take(i + 1) =~= self.jobs().take(i as int).push(job@));
            }
            let ghost old_out = out@;
            out.insert(p, job);
            assert(job_views(out@) =~= job_views(old_out).insert(p as int, out@[p as int]@));
            i = i + 1;
        }
        assert(self.jobs().take(self.jobs.len() as int) =~= self.jobs());
        out
    }
}

pub proof fn lemma_newest_first_total()
    ensures
        total_preorder(newest_first()),
{
}

proof fn lemma_known_total_prefix(sizes: Seq<Option<u64>>, k: int)
    requires
        0 <= k <= sizes.len(),
    ensures
        known_total(sizes.take(k)) <= known_total(sizes),
    decreases sizes.len(),
{
    if k < sizes.len() {
        lemma_known_total_prefix(sizes.drop_last(), k);
        assert(sizes.drop_last().take(k) =~= sizes.take(k));
    } else {
        assert(sizes.take(k) =~= sizes);
    }
}


/// Storing a job and then looking for its id finds that job.
pub proof fn stored_job_is_found(js: Seq<JobView>, j: JobView)
    ensures
        job_index(insert_job(js, j), j.id) matches Some(i) && insert_job(js, j)[i] == j,
{
    lemma_job_index(js, j.id);
    let r = insert_job(js, j);
    lemma_job_index(r, j.id);
    match job_index(js, j.id) {
        Some(i) => {
            match job_index(r, j.id) {
                Some(k) => {
                    if k < i {
                        assert(r[k] == js[k]);
                    }
                    if k > i {
                        assert(r[i].id == j.id);
                    }
                },
                None => {
                    assert(r[i].id == j.id);
                },
            }
        },
        None => {
            let n = js.len() as int;
            match job_index(r, j.id) {
                Some(k) => {
                    if k < n {
                        assert(r[k] == js[k]);
                    }
                },
                None => {
                    assert(r[n].id == j.id);
                },
            }
        },
    }
}


/// No step of a job's life makes it wait again: starting it, moving it to a
/// file, counting its bytes, completing it and failing it all leave a job
/// that is not waiting. Only a new job waits.
pub proof fn job_steps_never_requeue(
    j: JobView,
    name: Seq<char>,
    bytes: u64,
    now: u64,
    text: Seq<char>,
    after: JobView,
)
    ensures
        !(with_status(StatusView::Running)(j).status is Queued),
        with_file(name)(j).status == j.status,
        with_transferred(bytes)(j).status == j.status,
        !(completed_at(now)(j).status is Queued),
        failed_as(j, after, text, now) ==> !(after.status is Queued),
{
}

} // verus!
