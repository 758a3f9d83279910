//! Tests of the scan/diff/apply data model: similarity scoring, changeset
//! computation with rename detection, and the ordered synchronization plan
//! applied to an in-memory listing.

use janus::paths::strip_root_prefix;
use janus::similarity::{path_similarity, simple_string_similarity};
use janus::{apply_plan, diff_scans, plan_changes, ContentHash, FileMeta, ScanResult, SyncOp,
    SyncOptions};

fn fingerprint(content: &str) -> ContentHash {
    ContentHash::from_bytes(content.as_bytes().to_vec())
}

fn meta(path: &str, content: &str) -> FileMeta {
    FileMeta {
        path: path.to_string(),
        size: content.len() as u64,
        mtime: 1_700_000_000,
        hash: fingerprint(content),
        permissions: None,
    }
}

fn snap(root: &str, files: Vec<FileMeta>) -> ScanResult {
    ScanResult { root: root.to_string(), files, scan_time: 1_700_000_100 }
}

fn ratio(score: (u64, u64)) -> f64 {
    score.0 as f64 / score.1 as f64
}

fn find<'a>(files: &'a [FileMeta], path: &str) -> Option<&'a FileMeta> {
    files.iter().find(|f| f.path == path)
}

fn apply(source: &ScanResult, dest: &ScanResult, options: &SyncOptions) -> Vec<FileMeta> {
    let diff = diff_scans(source, dest).unwrap();
    let ops = plan_changes(&diff, options);
    apply_plan(&source.files, &dest.files, &ops)
}

#[test]
fn test_path_similarity() {
    // Exact filename match
    let score = path_similarity("dir1/file.txt", "dir2/file.txt");
    assert!(ratio(score) > 0.8);

    // Different files in same directory (directory similarity pulls score up)
    let score = path_similarity("dir/foo.txt", "dir/bar.txt");
    assert!(ratio(score) > 0.3); // Same dir boosts similarity
    assert!(ratio(score) < 0.7); // But still not very similar
}

#[test]
fn test_string_similarity() {
    let s = simple_string_similarity("hello", "hello");
    assert_eq!(ratio(s), 1.0);
    let s = simple_string_similarity("", "");
    assert_eq!(ratio(s), 1.0); // Equal empty strings
    let s = simple_string_similarity("hello", "hallo");
    assert!(ratio(s) > 0.5);
}

#[test]
fn test_string_similarity_symmetric() {
    let a = simple_string_similarity("abcd", "cdef");
    let b = simple_string_similarity("cdef", "abcd");
    assert_eq!(a, b);
    let a = path_similarity("x/one.txt", "y/two.txt");
    let b = path_similarity("y/two.txt", "x/one.txt");
    assert_eq!(a, b);
}

#[test]
fn test_string_similarity_empty_side() {
    let s = simple_string_similarity("abc", "");
    assert_eq!(s.0, 0);
    let s = simple_string_similarity("", "abc");
    assert_eq!(s.0, 0);
}

#[test]
fn test_diff_identical_directories() {
    let source_scan = snap("/s", vec![meta("file.txt", "content")]);
    let dest_scan = snap("/d", vec![meta("file.txt", "content")]);

    let diff = diff_scans(&source_scan, &dest_scan).unwrap();

    assert_eq!(diff.added.len(), 0);
    assert_eq!(diff.removed.len(), 0);
    assert_eq!(diff.modified.len(), 0);
    assert_eq!(diff.renamed.len(), 0);
}

#[test]
fn test_diff_self_is_empty() {
    let files = vec![
        meta("a.txt", "alpha"),
        meta("b/b.txt", "beta"),
        meta("c/d/e.txt", "gamma"),
    ];
    let again = files.iter().map(|f| f.duplicate()).collect();
    let s1 = snap("/r", files);
    let s2 = snap("/r", again);
    let diff = diff_scans(&s1, &s2).unwrap();
    assert_eq!(diff.added.len(), 0);
    assert_eq!(diff.removed.len(), 0);
    assert_eq!(diff.modified.len(), 0);
    assert_eq!(diff.renamed.len(), 0);
}

#[test]
fn test_diff_added_files() {
    let source_scan = snap("/s", vec![meta("new_file.txt", "new content")]);
    let dest_scan = snap("/d", vec![]);

    let diff = diff_scans(&source_scan, &dest_scan).unwrap();

    assert_eq!(diff.added.len(), 1);
    assert_eq!(diff.added[0].path, "new_file.txt");
}

#[test]
fn test_diff_removed_files() {
    let source_scan = snap("/s", vec![]);
    let dest_scan = snap("/d", vec![meta("old_file.txt", "old content")]);

    let diff = diff_scans(&source_scan, &dest_scan).unwrap();

    assert_eq!(diff.removed.len(), 1);
    assert_eq!(diff.removed[0].path, "old_file.txt");
}

#[test]
fn test_diff_modified_files() {
    let source_scan = snap("/s", vec![meta("file.txt", "new content")]);
    let dest_scan = snap("/d", vec![meta("file.txt", "old content")]);

    let diff = diff_scans(&source_scan, &dest_scan).unwrap();

    assert_eq!(diff.modified.len(), 1);
    assert_eq!(diff.modified[0].path, "file.txt");
}

#[test]
fn test_diff_unmatched_fingerprint_is_added() {
    // Fingerprint matches nothing in the destination and the path is new:
    // classified added, nothing else touches it.
    let source_scan = snap("/s", vec![meta("data/fresh.bin", "unique bytes")]);
    let dest_scan = snap("/d", vec![meta("data/other.bin", "different bytes")]);
    let diff = diff_scans(&source_scan, &dest_scan).unwrap();
    assert_eq!(diff.added.len(), 1);
    assert_eq!(diff.added[0].path, "data/fresh.bin");
    assert_eq!(diff.renamed.len(), 0);
    assert_eq!(diff.removed.len(), 1);
}

#[test]
fn test_rename_detection_in_sync() {
    let content = "unique file content for rename detection";
    let source_scan = snap("/s", vec![meta("new_name.txt", content)]);
    let dest_scan = snap("/d", vec![meta("old_name.txt", content)]);

    let diff = diff_scans(&source_scan, &dest_scan).unwrap();
    assert_eq!(diff.renamed.len(), 1, "Should detect rename");
    assert_eq!(diff.renamed[0].0.path, "old_name.txt");
    assert_eq!(diff.renamed[0].1.path, "new_name.txt");
    assert_eq!(diff.added.len(), 0);
    assert_eq!(diff.removed.len(), 0);

    let state = apply(&source_scan, &dest_scan, &SyncOptions::default());
    assert!(find(&state, "new_name.txt").is_some());
    assert!(find(&state, "old_name.txt").is_none());
    assert!(find(&state, "new_name.txt").unwrap().hash.equals(&fingerprint(content)));
}

#[test]
fn test_rename_zero_similarity_is_added() {
    // Identical content at completely dissimilar paths scores zero, so the
    // record is classified added and the candidate stays removed.
    let content = "shared";
    let source_scan = snap("/s", vec![meta("a/b", content)]);
    let dest_scan = snap("/d", vec![meta("c/d", content)]);
    let diff = diff_scans(&source_scan, &dest_scan).unwrap();
    assert_eq!(diff.renamed.len(), 0);
    assert_eq!(diff.added.len(), 1);
    assert_eq!(diff.removed.len(), 1);
}

#[test]
fn test_sync_new_files() {
    let source_scan = snap(
        "/s",
        vec![meta("new_file.txt", "new content"), meta("subdir/nested.txt", "nested content")],
    );
    let dest_scan = snap("/d", vec![]);

    let state = apply(&source_scan, &dest_scan, &SyncOptions::default());

    assert!(find(&state, "new_file.txt").unwrap().hash.equals(&fingerprint("new content")));
    assert!(find(&state, "subdir/nested.txt")
        .unwrap()
        .hash
        .equals(&fingerprint("nested content")));
}

#[test]
fn test_sync_modified_files() {
    let source_scan = snap("/s", vec![meta("file.txt", "updated content")]);
    let dest_scan = snap("/d", vec![meta("file.txt", "old content")]);

    let state = apply(&source_scan, &dest_scan, &SyncOptions::default());

    assert!(find(&state, "file.txt").unwrap().hash.equals(&fingerprint("updated content")));
}

#[test]
fn test_sync_with_delete() {
    let source_scan = snap("/s", vec![meta("keep.txt", "keep this")]);
    let dest_scan = snap(
        "/d",
        vec![meta("keep.txt", "keep this"), meta("delete.txt", "remove this")],
    );

    let options = SyncOptions { delete_removed: true, ..Default::default() };
    let state = apply(&source_scan, &dest_scan, &options);

    assert!(find(&state, "delete.txt").is_none());
    assert!(find(&state, "keep.txt").is_some());
}

#[test]
fn test_sync_without_delete() {
    let source_scan = snap("/s", vec![]);
    let dest_scan = snap("/d", vec![meta("old_file.txt", "old content")]);

    let options = SyncOptions { delete_removed: false, ..Default::default() };
    let state = apply(&source_scan, &dest_scan, &options);

    assert!(find(&state, "old_file.txt").is_some());
    assert!(find(&state, "old_file.txt").unwrap().hash.equals(&fingerprint("old content")));
}

#[test]
fn test_no_changes_sync() {
    let source_scan = snap("/s", vec![meta("file.txt", "content")]);
    let dest_scan = snap("/d", vec![meta("file.txt", "content")]);

    let state = apply(&source_scan, &dest_scan, &SyncOptions::default());

    assert_eq!(state.len(), 1);
    assert!(find(&state, "file.txt").unwrap().hash.equals(&fingerprint("content")));
}

#[test]
fn test_complex_sync_scenario() {
    let source_scan = snap(
        "/s",
        vec![
            meta("added.txt", "new file"),
            meta("modified.txt", "updated content"),
            meta("renamed_new.txt", "renamed content"),
            meta("unchanged.txt", "same content"),
        ],
    );
    let dest_scan = snap(
        "/d",
        vec![
            meta("modified.txt", "old content"),
            meta("renamed_old.txt", "renamed content"),
            meta("removed.txt", "will be deleted"),
            meta("unchanged.txt", "same content"),
        ],
    );

    let diff = diff_scans(&source_scan, &dest_scan).unwrap();

    assert_eq!(diff.added.len(), 1);
    assert_eq!(diff.modified.len(), 1);
    assert_eq!(diff.renamed.len(), 1);
    assert_eq!(diff.removed.len(), 1);
    assert_eq!(diff.added[0].path, "added.txt");
    assert_eq!(diff.modified[0].path, "modified.txt");
    assert_eq!(diff.renamed[0].0.path, "renamed_old.txt");
    assert_eq!(diff.renamed[0].1.path, "renamed_new.txt");
    assert_eq!(diff.removed[0].path, "removed.txt");

    let options = SyncOptions { delete_removed: true, ..Default::default() };
    let state = apply(&source_scan, &dest_scan, &options);

    assert_eq!(state.len(), 4);
    assert!(find(&state, "added.txt").unwrap().hash.equals(&fingerprint("new file")));
    assert!(find(&state, "modified.txt").unwrap().hash.equals(&fingerprint("updated content")));
    assert!(find(&state, "renamed_new.txt")
        .unwrap()
        .hash
        .equals(&fingerprint("renamed content")));
    assert!(find(&state, "unchanged.txt").is_some());
    assert!(find(&state, "renamed_old.txt").is_none());
    assert!(find(&state, "removed.txt").is_none());
}

#[test]
fn test_plan_order_copies_before_rename_removal() {
    let source_scan = snap("/s", vec![meta("new_name.txt", "payload")]);
    let dest_scan = snap(
        "/d",
        vec![meta("old_name.txt", "payload"), meta("stale.txt", "stale")],
    );
    let diff = diff_scans(&source_scan, &dest_scan).unwrap();
    let options = SyncOptions { delete_removed: true, ..Default::default() };
    let ops = plan_changes(&diff, &options);

    assert_eq!(ops.len(), 3);
    match &ops[0] {
        SyncOp::Transfer { path } => assert_eq!(path, "new_name.txt"),
        _ => panic!("expected the rename copy first"),
    }
    match &ops[1] {
        SyncOp::Remove { path } => assert_eq!(path, "old_name.txt"),
        _ => panic!("expected the rename removal second"),
    }
    match &ops[2] {
        SyncOp::Remove { path } => assert_eq!(path, "stale.txt"),
        _ => panic!("expected the deletion last"),
    }
}

#[test]
fn test_plan_without_delete_has_no_removed_ops() {
    let source_scan = snap("/s", vec![]);
    let dest_scan = snap("/d", vec![meta("only.txt", "x")]);
    let diff = diff_scans(&source_scan, &dest_scan).unwrap();
    let ops = plan_changes(&diff, &SyncOptions::default());
    assert_eq!(ops.len(), 0);
}

#[test]
fn test_total_size() {
    let s = snap(
        "/r",
        vec![meta("a", "12345"), meta("b", "1234567890"), meta("c", "")],
    );
    assert_eq!(s.total_size(), 15);
}

#[test]
fn test_strip_root_prefix() {
    let rel = strip_root_prefix("/data/src", "/data/src/a/b.txt").unwrap();
    assert_eq!(rel, "a/b.txt");

    match strip_root_prefix("/data/src", "/data/other/a.txt") {
        Err(janus::SyncError::InvalidPath(_)) => {},
        _ => panic!("a path outside the root must be an InvalidPath failure"),
    }
    let err = strip_root_prefix("/data/src", "/data").unwrap_err();
    assert_eq!(err.message(), "path not under root");
}

#[test]
fn test_fingerprint_equality() {
    let a = fingerprint("same");
    let b = fingerprint("same");
    let c = fingerprint("other");
    assert!(a.equals(&b));
    assert!(!a.equals(&c));
    assert!(a.duplicate().equals(&a));
}

#[test]
fn test_nested_directories() {
    let source_scan = snap(
        "/s",
        vec![meta("a/b/c/deep.txt", "deep content"), meta("x/y/file.txt", "other content")],
    );
    let dest_scan = snap("/d", vec![]);

    let state = apply(&source_scan, &dest_scan, &SyncOptions::default());

    assert!(find(&state, "a/b/c/deep.txt").is_some());
    assert!(find(&state, "x/y/file.txt").is_some());
    assert!(find(&state, "a/b/c/deep.txt").unwrap().hash.equals(&fingerprint("deep content")));
}

#[test]
fn test_empty_file_sync() {
    let source_scan = snap("/s", vec![meta("empty.txt", "")]);
    let dest_scan = snap("/d", vec![]);

    let state = apply(&source_scan, &dest_scan, &SyncOptions::default());

    assert!(find(&state, "empty.txt").is_some());
    assert_eq!(find(&state, "empty.txt").unwrap().size, 0);
}
