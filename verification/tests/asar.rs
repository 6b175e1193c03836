use chatgpt_linux_desktop::asar::{
    encode_archive, plan_extraction, read_layout, AsarError, ExtractOp,
};
use chatgpt_linux_desktop::pack::{pack_archive, PackEntry, PackNode};

fn file(name: &str, contents: &[u8], executable: bool) -> PackEntry {
    raw_file(name.as_bytes(), contents, executable)
}

fn raw_file(name: &[u8], contents: &[u8], executable: bool) -> PackEntry {
    PackEntry {
        name: name.to_vec(),
        node: PackNode::File { contents: contents.to_vec(), executable },
    }
}

fn dir(name: &str, entries: Vec<PackEntry>) -> PackEntry {
    PackEntry { name: name.as_bytes().to_vec(), node: PackNode::Dir(entries) }
}

fn written(raw: &[u8], ops: &[ExtractOp], path: &[&str]) -> Option<(Vec<u8>, bool)> {
    for op in ops {
        if let ExtractOp::WriteFile { path: p, start, end, executable } = op {
            if p.iter().map(|s| s.as_str()).eq(path.iter().copied()) {
                return Some((raw[*start..*end].to_vec(), *executable));
            }
        }
    }
    None
}

#[test]
fn pack_extract_round_trip_files_and_executable_bit() {
    let tree = vec![
        dir("nested", vec![file("run.sh", b"#!/bin/sh\n", true)]),
        file("hello.txt", b"hello", false),
    ];
    let archive = pack_archive(tree).unwrap();
    let plan = plan_extraction(&archive);
    assert!(plan.failure.is_none());

    assert_eq!(
        written(&archive, &plan.ops, &["hello.txt"]),
        Some((b"hello".to_vec(), false))
    );
    let (run, executable) = written(&archive, &plan.ops, &["nested", "run.sh"]).unwrap();
    assert_eq!(run, b"#!/bin/sh\n");
    assert!(executable);
}

#[test]
fn extract_rejects_invalid_size_pickle() {
    let plan = plan_extraction(&[0u8; 16]);
    assert!(plan.ops.is_empty());
    let (err, _) = plan.failure.unwrap();
    assert_eq!(err, AsarError::InvalidSizePickle(0));
    assert!(err.message("").contains("invalid ASAR size-pickle"));
}

#[test]
fn pack_lays_out_header_and_data_in_name_order() {
    let tree = vec![file("b", b"BB", false), file("a", b"A", true)];
    let archive = pack_archive(tree).unwrap();
    let json = r#"{"files":{"a":{"executable":true,"offset":"0","size":1},"b":{"offset":"1","size":2}}}"#;
    let expected = encode_archive(json, b"ABB").unwrap();
    assert_eq!(archive, expected);
}

#[test]
fn encode_archive_frames_header_and_data() {
    let raw = encode_archive("{}", b"xyz").unwrap();
    let mut expected = vec![4, 0, 0, 0, 12, 0, 0, 0, 8, 0, 0, 0, 2, 0, 0, 0];
    expected.extend_from_slice(b"{}");
    expected.extend_from_slice(&[0, 0]);
    expected.extend_from_slice(b"xyz");
    assert_eq!(raw, expected);
    let layout = read_layout(&raw).ok().unwrap();
    assert_eq!(layout.json_len, 2);
    assert_eq!(layout.data_base, 20);
}

#[test]
fn read_layout_errors() {
    assert_eq!(read_layout(&[4, 0, 0, 0]).err(), Some(AsarError::TooSmall));
    let mut raw = vec![4, 0, 0, 0, 8, 0, 0, 0, 0, 0, 0, 0, 9, 0, 0, 0];
    assert_eq!(read_layout(&raw).err(), Some(AsarError::HeaderTruncated));
    raw[0] = 5;
    assert_eq!(read_layout(&raw).err(), Some(AsarError::InvalidSizePickle(5)));
}

fn framed(json: &str, data: &[u8]) -> Vec<u8> {
    encode_archive(json, data).unwrap()
}

#[test]
fn extraction_errors_are_reported_with_their_entry() {
    let plan = plan_extraction(&framed(r#"{"nofiles":{}}"#, b""));
    assert_eq!(plan.ops.len(), 1);
    assert_eq!(plan.failure.unwrap().0, AsarError::MissingFiles);

    let plan = plan_extraction(&framed("{not json", b""));
    assert_eq!(plan.failure.unwrap().0, AsarError::HeaderNotJson);

    let plan = plan_extraction(&framed(r#"{"files":[]}"#, b""));
    assert_eq!(plan.failure.unwrap().0, AsarError::DirectoryNotObject);

    let plan = plan_extraction(&framed(r#"{"files":{"a":{"offset":0,"size":1}}}"#, b"x"));
    assert_eq!(plan.failure.unwrap().0, AsarError::OffsetNotString);

    let plan = plan_extraction(&framed(r#"{"files":{"a":{"offset":"-1","size":1}}}"#, b"x"));
    assert_eq!(plan.failure.unwrap().0, AsarError::OffsetNotInteger);

    let plan = plan_extraction(&framed(r#"{"files":{"a":{"offset":"0","size":1.5}}}"#, b"x"));
    assert_eq!(plan.failure.unwrap().0, AsarError::SizeNotNumber);

    let plan = plan_extraction(&framed(
        r#"{"files":{"a":{"offset":"0","size":1},"d":{"files":{"b":{"offset":"+0","size":2}}}}}"#,
        b"x",
    ));
    assert_eq!(plan.ops.len(), 3);
    let (err, path) = plan.failure.unwrap();
    assert_eq!(err, AsarError::EntryOutOfBounds);
    assert_eq!(path, vec!["d".to_string(), "b".to_string()]);
    assert_eq!(err.message("d/b"), "ASAR entry d/b points beyond archive data");

    let plan = plan_extraction(&framed(
        r#"{"files":{"a":{"offset":"18446744073709551615","size":1}}}"#,
        b"x",
    ));
    assert_eq!(plan.failure.unwrap().0, AsarError::OffsetOverflow);

    let mut raw = framed(r#"{"files":{}}"#, b"");
    raw[16] = 0xff;
    assert_eq!(plan_extraction(&raw).failure.unwrap().0, AsarError::HeaderNotUtf8);
}

#[test]
fn header_pickle_payload_is_padded_json_length() {
    let raw = encode_archive("{\"files\":{}}", b"").unwrap();
    // JSON of 12 bytes: payload 4 + 12; a 13-byte JSON pads to 16.
    assert_eq!(&raw[8..12], &[16, 0, 0, 0]);
    let raw = encode_archive("{\"files\":{} }", b"").unwrap();
    assert_eq!(&raw[4..16], &[24, 0, 0, 0, 20, 0, 0, 0, 13, 0, 0, 0]);
    assert_eq!(read_layout(&raw).ok().unwrap().data_base, 32);
}

fn nested(depth: usize) -> Vec<PackEntry> {
    let mut entries = vec![file("leaf.txt", b"leaf", false)];
    for _ in 1..depth {
        entries = vec![dir("d", entries)];
    }
    entries
}

#[test]
fn pack_round_trip_up_to_the_header_depth_limit() {
    // The root plus 62 nested directories: 63 levels.
    let archive = pack_archive(nested(63)).unwrap();
    let plan = plan_extraction(&archive);
    assert!(plan.failure.is_none());
    let mut path = vec!["d"; 62];
    path.push("leaf.txt");
    assert_eq!(written(&archive, &plan.ops, &path), Some((b"leaf".to_vec(), false)));

    // One level more: the header nests deeper than serde_json reads back.
    let archive = pack_archive(nested(64)).unwrap();
    let plan = plan_extraction(&archive);
    assert_eq!(plan.failure.unwrap().0, AsarError::HeaderNotJson);
}

#[test]
fn pack_orders_data_by_name_bytes_and_keys_by_text() {
    // The byte 0xff sorts after the first byte of U+1F600 (0xf0), so that
    // file's data comes second, while its key U+FFFD sorts first.
    let tree = vec![raw_file(b"\xff", b"X", false), file("\u{1F600}", b"YY", false)];
    let archive = pack_archive(tree).unwrap();
    let json = "{\"files\":{\"\u{FFFD}\":{\"offset\":\"2\",\"size\":1},\"\u{1F600}\":{\"offset\":\"0\",\"size\":2}}}";
    assert_eq!(archive, encode_archive(json, b"YYX").unwrap());
}

#[test]
fn pack_keeps_the_later_of_two_names_with_one_key() {
    // 0xfe and 0xff both read as U+FFFD; the one sorting later by bytes keeps the key.
    let tree = vec![raw_file(b"\xff", b"B", false), raw_file(b"\xfe", b"A", false)];
    let archive = pack_archive(tree).unwrap();
    let json = "{\"files\":{\"\u{FFFD}\":{\"offset\":\"1\",\"size\":1}}}";
    assert_eq!(archive, encode_archive(json, b"AB").unwrap());
}
