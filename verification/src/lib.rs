//! The core of a desktop client for remote storage boxes reached over SSH:
//! saved connection settings, reading disk usage from `quota` and `df`
//! output, remote directory listings and `du` sizes, and the bookkeeping of
//! upload jobs. The program around it performs the network and file work
//! and hands this library plain values.
use vstd::prelude::*;

pub mod text;
pub mod order;
pub mod quota;
pub mod listing;
pub mod config;
pub mod jobs;
pub mod state;
pub mod upload;
pub mod clock;

pub use clock::{now_secs, secs_since_epoch};
pub use config::ConnectionConfig;
pub use jobs::{JobStatus, UploadFailure, UploadJob};
pub use listing::{build_listing, du_command, join_remote, parse_dir_sizes, FileEntry, RawEntry};
pub use quota::{parse_df_output, parse_quota_kb, parse_quota_output, socket_address, StorageStats};
pub use state::AppState;
pub use upload::{remaining_bytes, ChunkAction, UploadRun};

