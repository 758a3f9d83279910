//! One-way directory mirroring: snapshots with content fingerprints,
//! changeset computation with rename detection, and a safety-ordered
//! synchronization plan.
//!
//! The library is organised around three steps. A `ScanResult` describes the
//! files of a directory tree (the caller gathers the raw listing; the library
//! owns the data model and its invariants). `diff_scans` compares two
//! snapshots and classifies every file as added, removed, modified or
//! renamed. `plan_changes` turns a changeset into the ordered list of
//! transfer and removal operations whose execution brings the destination
//! in line with the source without risking data loss on interruption.

pub mod codec;
pub mod codec_props;
pub mod diff;
pub mod diff_props;
pub mod errors;
pub mod hash;
pub mod paths;
pub mod similarity;
pub mod snapshot;
pub mod sync;
pub mod sync_props;

pub use codec::{from_json, to_json};
pub use diff::{diff_scans, DiffResult};
pub use errors::{IoError, SyncError};
pub use hash::ContentHash;
pub use snapshot::{FileMeta, ScanResult};
pub use sync::{apply_plan, plan_changes, SyncOp, SyncOptions};
