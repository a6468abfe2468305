//! The decisions of an upload run. The caller performs the work (connecting,
//! reading local files, writing remote ones) and reports what happened; these
//! functions update the job and say what to do next.
use vstd::prelude::*;

use crate::jobs::{cancelled_text, StatusView, UploadFailure};
use crate::state::{
    completed_at, job_failed, job_index, update_job, with_file, with_status, with_transferred,
    AppState,
};

verus! {

/// The progress of one run of an upload job.
pub struct UploadRun {
    pub job_id: String,
    /// The job's size, as it was when the run began.
    pub total_bytes: u64,
    /// Bytes sent so far in this run.
    pub transferred: u64,
}

/// What to do after a chunk was written.
pub enum ChunkAction {
    /// Go on reading.
    Continue,
    /// Report the progress (the job holds the new byte count), then go on.
    Report,
    /// The job was cancelled and is marked failed: report that and stop.
    Cancelled,
}

/// Progress reports go out at most every 300 ms.
pub open spec fn report_due(ms_since_report: u128) -> bool {
    ms_since_report >= 300
}

/// The name used for a local file whose path has no file name.
pub open spec fn unknown_name() -> Seq<char> {
    "unknown"@
}

/// Bytes still to send; none once more than the expected size was sent.
pub fn remaining_bytes(total: u64, transferred: u64) -> (r: u64)
    ensures
        r == if total >= transferred {
            total - transferred
        } else {
            0
        },
{
    if total >= transferred {
        total - transferred
    } else {
        0
    }
}

impl AppState {
    /// The run of the job `job_id` begins, its connection open: the job is
    /// marked running and its size is taken for the progress reports (0 when
    /// there is no such job).
    pub fn begin_upload(&mut self, job_id: String) -> (run: UploadRun)
        ensures
            run.job_id == job_id,
            run.transferred == 0,
            run.total_bytes == match job_index(old(self).jobs(), job_id@) {
                Some(i) => old(self).jobs()[i].total_bytes,
                None => 0,
            },
            final(self).jobs() == update_job(
                old(self).jobs(),
                job_id@,
                with_status(StatusView::Running),
            ),
            final(self).saved() == old(self).saved(),
            final(self).connections() == old(self).connections(),
    {
        self.mark_job_running(&job_id);
        let total = self.job_total_bytes(&job_id);
        proof {
            crate::state::lemma_job_index(old(self).jobs(), job_id@);
            crate::state::lemma_job_index(self.jobs(), job_id@);
            match job_index(old(self).jobs(), job_id@) {
                Some(i) => {
                    assert(self.jobs()[i].id == job_id@);
                    match job_index(self.jobs(), job_id@) {
                        Some(k) => {
                            if k < i {
                                assert(old(self).jobs()[k].id != job_id@);
                            }
                            if k > i {
                                assert(self.jobs()[i].id == job_id@);
                            }
                        },
                        None => {},
                    }
                },
                None => {},
            }
        }
        UploadRun { job_id, total_bytes: total, transferred: 0 }
    }

    /// The run moves on to a local file; `file_name` is the file name of its
    /// path, if the path has one. Returns the name under which the file is
    /// sent, which the job also shows as its current file.
    pub fn begin_file(&mut self, run: &UploadRun, file_name: Option<String>) -> (name: String)
        ensures
            name@ == match file_name {
                Some(n) => n@,
                None => unknown_name(),
            },
            final(self).jobs() == update_job(old(self).jobs(), run.job_id@, with_file(name@)),
            final(self).saved() == old(self).saved(),
            final(self).connections() == old(self).connections(),
    {
        let name = match file_name {
            Some(n) => n,
            None => String::from_str("unknown"),
        };
        self.set_job_file(&run.job_id, name.clone());
        name
    }

    /// A chunk of `bytes` bytes was written. When the user asked to cancel
    /// the job it fails as cancelled at `now`; otherwise, when the last report
    /// is `ms_since_report` milliseconds old and a report is due, the job takes
    /// the new byte count.
    pub fn after_chunk(
        &mut self,
        run: &mut UploadRun,
        bytes: u64,
        cancel_requested: bool,
        ms_since_report: u128,
        now: u64,
    ) -> (action: ChunkAction)
        requires
            old(run).transferred + bytes <= u64::MAX,
        ensures
            final(run).job_id == old(run).job_id,
            final(run).total_bytes == old(run).total_bytes,
            final(run).transferred == old(run).transferred + bytes,
            final(run).transferred >= old(run).transferred,
            cancel_requested ==> action is Cancelled && job_failed(
                old(self).jobs(),
                final(self).jobs(),
                old(run).job_id@,
                cancelled_text(),
                now,
            ),
            !cancel_requested && report_due(ms_since_report) ==> action is Report
                && final(self).jobs() == update_job(
                old(self).jobs(),
                old(run).job_id@,
                with_transferred(final(run).transferred),
            ),
            !cancel_requested && !report_due(ms_since_report) ==> action is Continue
                && final(self).jobs() == old(self).jobs(),
            final(self).saved() == old(self).saved(),
            final(self).connections() == old(self).connections(),
    {
        run.transferred = run.transferred + bytes;
        if cancel_requested {
            self.fail_job(&run.job_id, UploadFailure::Cancelled, now);
            ChunkAction::Cancelled
        } else if ms_since_report >= 300 {
            self.record_job_transferred(&run.job_id, run.transferred);
            ChunkAction::Report
        } else {
            ChunkAction::Continue
        }
    }

    /// Every file was sent: the job completes at `now`.
    pub fn finish_upload(&mut self, run: &UploadRun, now: u64)
        ensures
            final(self).jobs() == update_job(old(self).jobs(), run.job_id@, completed_at(now)),
            final(self).saved() == old(self).saved(),
            final(self).connections() == old(self).connections(),
    {
        self.complete_job(&run.job_id, now);
    }
}

} // verus!
