//! Tests of the persisted snapshot format: the canonical text a snapshot
//! serializes to, and the round trip back through the parser.

use janus::{from_json, to_json, ContentHash, FileMeta, ScanResult};

fn record(path: &str, size: u64, mtime: u64, hash: &[u8], permissions: Option<u32>) -> FileMeta {
    FileMeta {
        path: path.to_string(),
        size,
        mtime,
        hash: ContentHash::from_bytes(hash.to_vec()),
        permissions,
    }
}

fn assert_same_snapshot(a: &ScanResult, b: &ScanResult) {
    assert_eq!(a.root, b.root);
    assert_eq!(a.scan_time, b.scan_time);
    assert_eq!(a.files.len(), b.files.len());
    for (x, y) in a.files.iter().zip(b.files.iter()) {
        assert_eq!(x.path, y.path);
        assert_eq!(x.size, y.size);
        assert_eq!(x.mtime, y.mtime);
        assert!(x.hash.equals(&y.hash));
        assert_eq!(x.permissions, y.permissions);
    }
}

#[test]
fn test_to_json_exact_text() {
    let s = ScanResult {
        root: "/data".to_string(),
        files: vec![record("a.txt", 5, 1700000000, &[0xde, 0xad], Some(420))],
        scan_time: 1700000001,
    };
    let text = to_json(&s);
    assert_eq!(
        text,
        "{\"root\":\"/data\",\"files\":[{\"path\":\"a.txt\",\"size\":5,\
         \"mtime\":1700000000,\"hash\":\"dead\",\"permissions\":420}],\
         \"scan_time\":1700000001}"
    );
}

#[test]
fn test_to_json_empty_snapshot() {
    let s = ScanResult { root: "r".to_string(), files: vec![], scan_time: 0 };
    assert_eq!(to_json(&s), "{\"root\":\"r\",\"files\":[],\"scan_time\":0}");
}

#[test]
fn test_round_trip_plain() {
    let s = ScanResult {
        root: "/backup/source".to_string(),
        files: vec![
            record("a.txt", 12, 1699999999, &[1, 2, 3, 4], None),
            record("sub/dir/b.bin", 0, 0, &[], Some(0o644)),
            record("c", u64::MAX, u64::MAX, &[0xff; 32], Some(u32::MAX)),
        ],
        scan_time: 1700000555,
    };
    let loaded = from_json(to_json(&s).as_str()).expect("canonical text parses");
    assert_same_snapshot(&s, &loaded);
}

#[test]
fn test_round_trip_escaped_paths() {
    let s = ScanResult {
        root: "we\"ird\\root".to_string(),
        files: vec![
            record("tab\u{9}and\u{1}control", 1, 2, &[9], None),
            record("unicode-\u{e9}\u{4e16}\u{1f600}", 3, 4, &[0xab, 0xcd], Some(7)),
        ],
        scan_time: 42,
    };
    let text = to_json(&s);
    let loaded = from_json(text.as_str()).expect("escaped text parses");
    assert_same_snapshot(&s, &loaded);
}

#[test]
fn test_from_json_rejects_malformed() {
    assert!(from_json("").is_none());
    assert!(from_json("{}").is_none());
    assert!(from_json("{\"root\":\"r\",\"files\":[],\"scan_time\":0").is_none());
    assert!(from_json("{\"root\":\"r\",\"files\":[],\"scan_time\":01}").is_none());
    assert!(from_json("{\"root\":\"r\",\"files\":[],\"scan_time\":0}x").is_none());
    // uppercase hex digits are not canonical
    assert!(from_json(
        "{\"root\":\"r\",\"files\":[{\"path\":\"a\",\"size\":1,\"mtime\":2,\
         \"hash\":\"DE\"}],\"scan_time\":3}"
    )
    .is_none());
    // odd number of hex digits
    assert!(from_json(
        "{\"root\":\"r\",\"files\":[{\"path\":\"a\",\"size\":1,\"mtime\":2,\
         \"hash\":\"abc\"}],\"scan_time\":3}"
    )
    .is_none());
}

#[test]
fn test_from_json_parses_written_records() {
    let text = "{\"root\":\"r\",\"files\":[{\"path\":\"x\",\"size\":7,\"mtime\":8,\
                 \"hash\":\"00ff\"},{\"path\":\"y\",\"size\":9,\"mtime\":10,\
                 \"hash\":\"\",\"permissions\":493}],\"scan_time\":11}";
    let s = from_json(text).expect("parses");
    assert_eq!(s.root, "r");
    assert_eq!(s.scan_time, 11);
    assert_eq!(s.files.len(), 2);
    assert_eq!(s.files[0].path, "x");
    assert_eq!(s.files[0].size, 7);
    assert_eq!(s.files[0].hash.as_bytes().as_slice(), &[0x00, 0xff]);
    assert_eq!(s.files[0].permissions, None);
    assert_eq!(s.files[1].path, "y");
    assert_eq!(s.files[1].permissions, Some(493));
    assert_eq!(s.files[1].hash.as_bytes().len(), 0);
}
