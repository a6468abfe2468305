//! Upload jobs: their record, the states they pass through, and the text of
//! the reasons they fail for.
use vstd::prelude::*;

verus! {

/// Where an upload job stands.
#[derive(Debug, PartialEq)]
pub enum JobStatus {
    Queued,
    Running,
    Completed,
    Failed(String),
}

impl Clone for JobStatus {
    fn clone(&self) -> (r: Self)
        ensures
            r == *self,
    {
        match self {
            JobStatus::Queued => JobStatus::Queued,
            JobStatus::Running => JobStatus::Running,
            JobStatus::Completed => JobStatus::Completed,
            JobStatus::Failed(m) => JobStatus::Failed(m.clone()),
        }
    }
}

/// An upload of local files into a remote directory. The transfer rate and
/// the time left are measured while the job runs and kept beside it.
#[derive(Debug)]
pub struct UploadJob {
    pub id: String,
    pub connection_id: String,
    pub connection_name: String,
    pub remote_path: String,
    pub files: Vec<String>,
    pub total_bytes: u64,
    pub transferred_bytes: u64,
    pub status: JobStatus,
    pub started_at: u64,
    pub finished_at: Option<u64>,
    pub current_file: String,
}

/// Where a job stands, as a value.
pub enum StatusView {
    Queued,
    Running,
    Completed,
    Failed(Seq<char>),
}

impl View for JobStatus {
    type V = StatusView;

    open spec fn view(&self) -> StatusView {
        match self {
            JobStatus::Queued => StatusView::Queued,
            JobStatus::Running => StatusView::Running,
            JobStatus::Completed => StatusView::Completed,
            JobStatus::Failed(m) => StatusView::Failed(m@),
        }
    }
}

/// An upload job as a value.
pub struct JobView {
    pub id: Seq<char>,
    pub connection_id: Seq<char>,
    pub connection_name: Seq<char>,
    pub remote_path: Seq<char>,
    pub files: Seq<Seq<char>>,
    pub total_bytes: u64,
    pub transferred_bytes: u64,
    pub status: StatusView,
    pub started_at: u64,
    pub finished_at: Option<u64>,
    pub current_file: Seq<char>,
}

pub open spec fn string_views(v: Seq<String>) -> Seq<Seq<char>> {
    v.map_values(|s: String| s@)
}

impl View for UploadJob {
    type V = JobView;

    open spec fn view(&self) -> JobView {
        JobView {
            id: self.id@,
            connection_id: self.connection_id@,
            connection_name: self.connection_name@,
            remote_path: self.remote_path@,
            files: string_views(self.files@),
            total_bytes: self.total_bytes,
            transferred_bytes: self.transferred_bytes,
            status: self.status@,
            started_at: self.started_at,
            finished_at: self.finished_at,
            current_file: self.current_file@,
        }
    }
}

/// A copy of each string, in order.
pub fn clone_strings(v: &Vec<String>) -> (r: Vec<String>)
    ensures
        r@ == v@,
{
    let mut r: Vec<String> = Vec::new();
    let mut i: usize = 0;
    while i < v.len()
        invariant
            i <= v.len(),
            r@ == v@.take(i as int),
        decreases v.len() - i,
    {
        r.push(v[i].clone());
        i = i + 1;
        assert(r@ =~= v@.take(i as int));
    }
    assert(v@.take(v.len() as int) =~= v@);
    r
}

impl Clone for UploadJob {
    fn clone(&self) -> (r: Self)
        ensures
            r@ == self@,
    {
        UploadJob {
            id: self.id.clone(),
            connection_id: self.connection_id.clone(),
            connection_name: self.connection_name.clone(),
            remote_path: self.remote_path.clone(),
            files: clone_strings(&self.files),
            total_bytes: self.total_bytes,
            transferred_bytes: self.transferred_bytes,
            status: self.status.clone(),
            started_at: self.started_at,
            finished_at: self.finished_at,
            current_file: self.current_file.clone(),
        }
    }
}

pub open spec fn is_finished(s: StatusView) -> bool {
    s is Completed || s is Failed
}

/// A job that has completed or failed carries the time it finished; a job
/// that still waits carries none.
pub open spec fn job_wf(j: UploadJob) -> bool {
    &&& is_finished(j.status@) ==> j.finished_at is Some
    &&& j.status@ is Queued ==> j.finished_at is None
}

/// The reason a job gets when it is cancelled.
pub open spec fn cancelled_text() -> Seq<char> {
    "Cancelled"@
}

/// Why an upload stopped before its end.
pub enum UploadFailure {
    /// The connection could not be set up; the text says why.
    Connect(String),
    /// The file transfer channel could not be opened.
    Channel(String),
    /// A local file could not be opened.
    Open(String),
    /// A remote file could not be created.
    CreateRemote(String),
    /// Reading a local file failed.
    Read(String),
    /// Writing a remote file failed.
    Write(String),
    /// The user cancelled the job.
    Cancelled,
}

/// The reason recorded in the job for a failure.
pub open spec fn failure_text(f: UploadFailure) -> Seq<char> {
    match f {
        UploadFailure::Connect(e) => e@,
        UploadFailure::Channel(e) => e@,
        UploadFailure::Open(e) => "Open error: "@ + e@,
        UploadFailure::CreateRemote(e) => "Create remote file error: "@ + e@,
        UploadFailure::Read(e) => "Read error: "@ + e@,
        UploadFailure::Write(e) => "Write error: "@ + e@,
        UploadFailure::Cancelled => cancelled_text(),
    }
}

fn prefixed(prefix: &str, e: &String) -> (r: String)
    ensures
        r@ == prefix@ + e@,
{
    let mut r = String::from_str(prefix);
    r.append(e.as_str());
    r
}

impl UploadFailure {
    /// The reason recorded in the job.
    pub fn message(&self) -> (r: String)
        ensures
            r@ == failure_text(*self),
    {
        match self {
            UploadFailure::Connect(e) => e.clone(),
            UploadFailure::Channel(e) => e.clone(),
            UploadFailure::Open(e) => prefixed("Open error: ", e),
            UploadFailure::CreateRemote(e) => prefixed("Create remote file error: ", e),
            UploadFailure::Read(e) => prefixed("Read error: ", e),
            UploadFailure::Write(e) => prefixed("Write error: ", e),
            UploadFailure::Cancelled => String::from_str("Cancelled"),
        }
    }
}

impl UploadJob {
    /// A job that waits to run: nothing transferred yet, no current file.
    pub fn queued(
        id: String,
        connection_id: String,
        connection_name: String,
        remote_path: String,
        files: Vec<String>,
        total_bytes: u64,
        started_at: u64,
    ) -> (j: Self)
        ensures
            j.id == id,
            j.connection_id == connection_id,
            j.connection_name == connection_name,
            j.remote_path == remote_path,
            j.files == files,
            j.total_bytes == total_bytes,
            j.transferred_bytes == 0,
            j.status == JobStatus::Queued,
            j.started_at == started_at,
            j.finished_at is None,
            j.current_file@ == Seq::<char>::empty(),
            job_wf(j),
    {
        UploadJob {
            id,
            connection_id,
            connection_name,
            remote_path,
            files,
            total_bytes,
            transferred_bytes: 0,
            status: JobStatus::Queued,
            started_at,
            finished_at: None,
            current_file: String::new(),
        }
    }

    /// The job starts running. A job cancelled while it waited is marked
    /// running again here; the cancel request still stops it at its first
    /// chunk.
    pub fn mark_running(&mut self)
        ensures
            *final(self) == (UploadJob { status: JobStatus::Running, ..*old(self) }),
    {
        self.status = JobStatus::Running;
    }

    /// The job fails for `reason` at time `now`.
    pub fn fail(&mut self, reason: String, now: u64)
        ensures
            *final(self) == (UploadJob {
                status: JobStatus::Failed(reason),
                finished_at: Some(now),
                ..*old(self)
            }),
    {
        self.status = JobStatus::Failed(reason);
        self.finished_at = Some(now);
    }

    /// The job moves on to the file `name`.
    pub fn set_current_file(&mut self, name: String)
        ensures
            *final(self) == (UploadJob { current_file: name, ..*old(self) }),
    {
        self.current_file = name;
    }

    /// The job has sent `bytes` bytes so far.
    pub fn record_transferred(&mut self, bytes: u64)
        ensures
            *final(self) == (UploadJob { transferred_bytes: bytes, ..*old(self) }),
    {
        self.transferred_bytes = bytes;
    }

    /// The job completes at time `now`: all its bytes count as sent.
    pub fn complete(&mut self, now: u64)
        ensures
            *final(self) == (UploadJob {
                status: JobStatus::Completed,
                transferred_bytes: old(self).total_bytes,
                finished_at: Some(now),
                ..*old(self)
            }),
    {
        self.status = JobStatus::Completed;
        self.transferred_bytes = self.total_bytes;
        self.finished_at = Some(now);
    }

    /// A job still waiting fails as cancelled at time `now`; a job that
    /// already runs or ended is left as it is.
    pub fn cancel_if_queued(&mut self, now: u64)
        ensures
            old(self).status is Queued ==> final(self).status is Failed
                && final(self).status->Failed_0@ == cancelled_text() && *final(self) == (UploadJob {
                status: final(self).status,
                finished_at: Some(now),
                ..*old(self)
            }),
            !(old(self).status is Queued) ==> *final(self) == *old(self),
    {
        if let JobStatus::Queued = self.status {
            self.status = JobStatus::Failed(String::from_str("Cancelled"));
            self.finished_at = Some(now);
        }
    }
}


pub open spec fn is_lower_hex(c: char) -> bool {
    ('0' <= c && c <= '9') || ('a' <= c && c <= 'f')
}

/// The hyphenated lower-case text of a random (version 4, RFC 4122 variant)
/// UUID: 36 characters, `-` at positions 8, 13, 18 and 23, hexadecimal digits
/// elsewhere, `4` at position 14 and one of `8`, `9`, `a`, `b` at position 19.
pub open spec fn random_uuid_text(s: Seq<char>) -> bool {
    &&& s.len() == 36
    &&& forall|i: int|
        0 <= i < 36 ==> if i == 8 || i == 13 || i == 18 || i == 23 {
            s[i] == '-'
        } else {
            is_lower_hex(#[trigger] s[i])
        }
    &&& s[14] == '4'
    &&& (s[19] == '8' || s[19] == '9' || s[19] == 'a' || s[19] == 'b')
}

/// The lower-case hexadecimal digit for `n` (below 16).
pub open spec fn hex_digit(n: u8) -> char {
    if n < 10 {
        (48 + n) as u8 as char
    } else {
        (87 + n) as u8 as char
    }
}

/// Byte `i` of the random UUID built from `bytes`: byte 6 carries the
/// version (4) in its high half, byte 8 the RFC 4122 variant in its top two
/// bits, the others are taken as they are.
pub open spec fn uuid_byte(bytes: Seq<u8>, i: int) -> u8 {
    if i == 6 {
        (bytes[6] & 0x0f) | 0x40
    } else if i == 8 {
        (bytes[8] & 0x3f) | 0x80
    } else {
        bytes[i]
    }
}

/// The 32 hexadecimal digits of that UUID, high half of each byte first.
pub open spec fn uuid_hex(bytes: Seq<u8>) -> Seq<char> {
    Seq::new(
        32,
        |k: int|
            hex_digit(
                if k % 2 == 0 {
                    uuid_byte(bytes, k / 2) >> 4
                } else {
                    uuid_byte(bytes, k / 2) & 0x0f
                },
            ),
    )
}

/// The hyphenated text of the random UUID built from 16 `bytes`: the digits
/// in groups of 8, 4, 4, 4 and 12 joined by `-`.
pub open spec fn uuid_text_of(bytes: Seq<u8>) -> Seq<char> {
    let h = uuid_hex(bytes);
    h.subrange(0, 8) + seq!['-'] + h.subrange(8, 12) + seq!['-'] + h.subrange(12, 16) + seq!['-']
        + h.subrange(16, 20) + seq!['-'] + h.subrange(20, 32)
}

proof fn lemma_hex_digit(n: u8)
    requires
        n < 16,
    ensures
        is_lower_hex(hex_digit(n)),
        n == 4 ==> hex_digit(n) == '4',
        n == 8 ==> hex_digit(n) == '8',
        n == 9 ==> hex_digit(n) == '9',
        n == 10 ==> hex_digit(n) == 'a',
        n == 11 ==> hex_digit(n) == 'b',
{
}

/// The text built from any 16 bytes is a random UUID's text.
pub proof fn uuid_text_is_random_uuid(bytes: Seq<u8>)
    requires
        bytes.len() == 16,
    ensures
        random_uuid_text(uuid_text_of(bytes)),
{
    let h = uuid_hex(bytes);
    let s = uuid_text_of(bytes);
    assert forall|k: int| 0 <= k < 32 implies is_lower_hex(#[trigger] h[k]) by {
        let b = uuid_byte(bytes, k / 2);
        assert(b >> 4 < 16) by (bit_vector);
        assert(b & 0x0f < 16) by (bit_vector);
        if k % 2 == 0 {
            lemma_hex_digit(b >> 4);
        } else {
            lemma_hex_digit(b & 0x0f);
        }
    }
    assert(s.len() == 36);
    assert forall|i: int| 0 <= i < 36 implies if i == 8 || i == 13 || i == 18 || i == 23 {
        s[i] == '-'
    } else {
        is_lower_hex(#[trigger] s[i])
    } by {
        if i < 8 {
            assert(s[i] == h[i]);
        } else if 8 < i < 13 {
            assert(s[i] == h[i - 1]);
        } else if 13 < i < 18 {
            assert(s[i] == h[i - 2]);
        } else if 18 < i < 23 {
            assert(s[i] == h[i - 3]);
        } else if 23 < i {
            assert(s[i] == h[i - 4]);
        }
    }
    let b6 = bytes[6];
    let b8 = bytes[8];
    assert(((b6 & 0x0f) | 0x40) >> 4 == 4) by (bit_vector);
    let v = ((b8 & 0x3f) | 0x80) >> 4;
    assert(8 <= ((b8 & 0x3f) | 0x80) >> 4 <= 11) by (bit_vector);
    assert(s[14] == h[12]);
    assert(s[19] == h[16]);
    lemma_hex_digit(4);
    lemma_hex_digit(v);
}

/// `uuid::Builder::from_random_bytes(bytes).into_uuid()` turned into text
/// with `to_string`. `from_random_bytes` keeps the 16 bytes but sets the
/// version (high half of byte 6 to 4) and the RFC 4122 variant (top two bits
/// of byte 8 to `10`); `Display` writes the hyphenated lower-case form. The
/// call does not fail.
#[verifier::external_body]
pub(crate) fn uuid_from_random_bytes(bytes: [u8; 16]) -> (r: String)
    ensures
        r@ == uuid_text_of(bytes@),
{
    uuid::Builder::from_random_bytes(bytes).into_uuid().to_string()
}

} // verus!
