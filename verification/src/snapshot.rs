//! Snapshots: the immutable record of one directory scan.
//!
//! A `FileMeta` describes a single regular file by its root-relative path,
//! size, whole-second modification time, content fingerprint and optional
//! permission bits. A `ScanResult` is the collection of records gathered by
//! one scan of a root directory; within a snapshot every path is unique, and
//! the enumeration order of `files` carries no meaning beyond the stable
//! tie-break it provides to rename detection.

use vstd::prelude::*;

use crate::hash::ContentHash;

verus! {

/// Mathematical model of a `FileMeta`.
pub ghost struct FileMetaV {
    /// Relative path from the scan root, as a character sequence.
    pub path: Seq<char>,
    /// File size in bytes.
    pub size: u64,
    /// Last-modified time, whole seconds since the Unix epoch.
    pub mtime: u64,
    /// Digest bytes of the file content.
    pub hash: Seq<u8>,
    /// Unix permission bits, where the platform exposes them.
    pub permissions: Option<u32>,
}

/// Metadata for a single file, including its content fingerprint.
#[derive(Debug)]
pub struct FileMeta {
    /// Relative path from the scan root.
    pub path: String,
    /// File size in bytes.
    pub size: u64,
    /// Last-modified time, whole seconds since the Unix epoch.
    pub mtime: u64,
    /// Content fingerprint of the file bytes.
    pub hash: ContentHash,
    /// Unix permission bits, where the platform exposes them.
    pub permissions: Option<u32>,
}

impl View for FileMeta {
    type V = FileMetaV;

    open spec fn view(&self) -> FileMetaV {
        FileMetaV {
            path: self.path@,
            size: self.size,
            mtime: self.mtime,
            hash: self.hash@,
            permissions: self.permissions,
        }
    }
}

impl FileMeta {
    /// An independent copy of this record.
    pub fn duplicate(&self) -> (r: FileMeta)
        ensures
            r@ == self@,
    {
        FileMeta {
            path: self.path.clone(),
            size: self.size,
            mtime: self.mtime,
            hash: self.hash.duplicate(),
            permissions: self.permissions,
        }
    }
}

/// Mathematical model of a `ScanResult`.
#[verifier::ext_equal]
pub ghost struct ScanResultV {
    /// Root directory that was scanned.
    pub root: Seq<char>,
    /// The file records, in enumeration order.
    pub files: Seq<FileMetaV>,
    /// When the scan was taken, whole seconds since the Unix epoch.
    pub scan_time: u64,
}

/// The result of scanning a directory: a snapshot of its files.
#[derive(Debug)]
pub struct ScanResult {
    /// Root directory that was scanned.
    pub root: String,
    /// List of all files found.
    pub files: Vec<FileMeta>,
    /// When the scan was taken, whole seconds since the Unix epoch.
    pub scan_time: u64,
}

impl View for ScanResult {
    type V = ScanResultV;

    open spec fn view(&self) -> ScanResultV {
        ScanResultV {
            root: self.root@,
            files: self.files@.map_values(|f: FileMeta| f@),
            scan_time: self.scan_time,
        }
    }
}

/// Every path occurs at most once in the record sequence.
pub open spec fn paths_unique(files: Seq<FileMetaV>) -> bool {
    forall|i: int, j: int|
        0 <= i < j < files.len() ==> files[i].path != files[j].path
}

/// The mathematical sum of the sizes of the given records.
pub open spec fn spec_total_size(files: Seq<FileMetaV>) -> int
    decreases files.len(),
{
    if files.len() == 0 {
        0
    } else {
        spec_total_size(files.drop_last()) + files.last().size
    }
}

/// The sum of a prefix of sizes never exceeds the sum of the whole,
/// since sizes are non-negative.
proof fn lemma_total_size_take_le(files: Seq<FileMetaV>, n: int)
    requires
        0 <= n <= files.len(),
    ensures
        spec_total_size(files.take(n)) <= spec_total_size(files),
        spec_total_size(files) >= 0,
    decreases files.len(),
{
    if files.len() == 0 {
        assert(files.take(n) =~= files);
    } else if n == files.len() {
        assert(files.take(n) =~= files);
        lemma_total_size_take_le(files.drop_last(), files.len() - 1);
    } else {
        assert(files.take(n) =~= files.drop_last().take(n));
        lemma_total_size_take_le(files.drop_last(), n);
    }
}

impl ScanResult {
    /// A snapshot is well formed when no relative path occurs twice.
    pub open spec fn wf(&self) -> bool {
        paths_unique(self@.files)
    }

    /// Calculate the total size of all files in the snapshot.
    pub fn total_size(&self) -> (r: u64)
        requires
            spec_total_size(self@.files) <= u64::MAX,
        ensures
            r == spec_total_size(self@.files),
    {
        let n = self.files.len();
        let mut total: u64 = 0;
        let mut i: usize = 0;
        while i < n
            invariant
                n == self@.files.len(),
                0 <= i <= n,
                spec_total_size(self@.files) <= u64::MAX,
                total == spec_total_size(self@.files.take(i as int)),
            decreases n - i,
        {
            proof {
                assert(self@.files.take(i + 1 as int).drop_last() =~= self@.files.take(
                    i as int,
                ));
                assert(self@.files.take(i + 1 as int).last() == self@.files[i as int]);
                lemma_total_size_take_le(self@.files, i + 1 as int);
                lemma_total_size_take_le(self@.files.take(i + 1 as int), i as int);
                assert(self@.files.take(i + 1 as int).take(i as int) =~= self@.files.take(
                    i as int,
                ));
            }
            total = total + self.files[i].size;
            i += 1;
        }
        proof {
            assert(self@.files.take(n as int) =~= self@.files);
        }
        total
    }
}

} // verus!
