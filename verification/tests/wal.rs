use wal::batch::Batch;
use wal::error::Error;
use wal::log::Log;
use wal::primitives::{Durability, LogFormat, Options, SegFile};
use wal::{data_str, segment_name};

fn make_options(segment_size: usize, durability: Durability, log_format: LogFormat) -> Options {
    Options { durability, segment_size, log_format }
}

fn open_fresh(path: &str, opts: Option<&Options>) -> Log {
    Log::open(path, Vec::new(), opts).expect("should open log")
}

fn reopen(log: &Log, opts: Option<&Options>) -> Log {
    let files = log.snapshot();
    Log::open(&log.path, files, opts).expect("should re-open log")
}

fn check_read(log: &mut Log, i: u64) {
    let data = log.read(i).expect("Read: should read entry");
    assert_eq!(
        std::str::from_utf8(&data).expect("should be valid"),
        data_str(i),
        "Read: expected {} at {}",
        data_str(i),
        i,
    );
}

fn check_first_last(log: &Log, expect_first: u64, expect_last: u64) {
    let first_index = log.firstindex().expect("should return first index");
    assert_eq!(first_index, expect_first);
    let last_index = log.lastindex().expect("should return last index");
    assert_eq!(last_index, expect_last);
}

/// The original end-to-end exercise: append, read back, reopen, batch, and
/// truncate from both ends.
fn run_log_exercise(path: &str, n0: u64, opts: Option<&Options>) {
    let mut n = n0;
    let mut log = open_fresh(path, opts);
    check_first_last(&log, 0, 0);

    for i in 1..n + 1 {
        match log.write(i - 1, data_str(i).as_bytes()) {
            Err(Error::OutofOrder) => {}
            _ => panic!("Write: should throw error"),
        }
        log.write(i, data_str(i).as_bytes()).expect("Write: should append item");
        check_read(&mut log, i);
    }

    match log.read(0) {
        Err(Error::NotFound) => {}
        _ => panic!("Read: should throw not found error"),
    }
    for i in 1..n {
        check_read(&mut log, i);
    }
    for i in 1..n / 2 {
        check_read(&mut log, i);
    }
    check_first_last(&log, 1, n);

    log.close().expect("Close: should close log");
    match log.write(1, b"test") {
        Err(Error::Closed) => {}
        _ => panic!("Close: should fail to write when closed"),
    }
    match log.firstindex() {
        Err(Error::Closed) => {}
        _ => panic!("Close: firstindex should fail when closed"),
    }
    match log.lastindex() {
        Err(Error::Closed) => {}
        _ => panic!("Close: lastindex should fail when closed"),
    }
    match log.read(1) {
        Err(Error::Closed) => {}
        _ => panic!("Close: read should fail when closed"),
    }
    match log.truncate_front(1) {
        Err(Error::Closed) => {}
        _ => panic!("Close: truncate_front should fail when closed"),
    }
    match log.truncate_back(1) {
        Err(Error::Closed) => {}
        _ => panic!("Close: truncate_back should fail when closed"),
    }

    // reopen and read everything back
    let mut log = reopen(&log, opts);
    for i in 1..n + 1 {
        check_read(&mut log, i);
    }
    check_first_last(&log, 1, n);

    // 50 more entries
    for i in n + 1..n + 51 {
        log.write(i, data_str(i).as_bytes()).expect("Write: should append item");
        check_read(&mut log, i);
    }
    n += 50;
    check_first_last(&log, 1, n);

    // batches of ten
    let mut batch = Batch::new();
    log.write_batch(&mut batch).expect("empty batch should succeed");
    for _i in 1..11 {
        for _j in 1..11 {
            n += 1;
            batch.write(data_str(n).as_bytes());
        }
        log.write_batch(&mut batch).expect("Failed to write batch");
    }
    for i in 1..n + 1 {
        check_read(&mut log, i);
    }

    if n < 161 {
        // too few entries for the eighty-by-eighty truncation dance
        return;
    }
    // truncation from the front
    match log.truncate_front(0) {
        Err(Error::OutOfRange) => {}
        _ => panic!("TruncateFront: expected OutOfRange error"),
    }
    check_first_last(&log, 1, n);
    log.truncate_front(1).expect("TruncateFront: no-op");
    check_first_last(&log, 1, n);
    log.truncate_front(81).expect("TruncateFront: drop the first eighty");
    check_first_last(&log, 81, n);
    match log.read(80) {
        Err(Error::NotFound) => {}
        _ => panic!("Read: dropped entry should be gone"),
    }
    check_read(&mut log, 81);

    // truncation from the back
    log.truncate_back(n).expect("TruncateBack: no-op");
    check_first_last(&log, 81, n);
    log.truncate_back(n - 80).expect("TruncateBack: drop the last eighty");
    n -= 80;
    check_first_last(&log, 81, n);

    log.close().expect("should close after truncating");
    let mut log = reopen(&log, opts);
    check_first_last(&log, 81, n);
    for i in 81..n + 1 {
        check_read(&mut log, i);
    }

    // keep one entry from each side, then write on
    log.truncate_front(n).expect("TruncateFront: all entries but one");
    check_first_last(&log, n, n);
    log.write(n + 1, data_str(n + 1).as_bytes()).expect("Write: should append");
    n += 1;
    check_first_last(&log, n - 1, n);
    log.truncate_back(n - 1).expect("TruncateBack: all entries but one");
    n -= 1;
    check_first_last(&log, n, n);
    log.write(n + 1, data_str(n + 1).as_bytes()).expect("Write: should append");
    n += 1;
    log.sync();
    check_first_last(&log, n - 1, n);
}

#[test]
fn test_log() {
    run_log_exercise("testlog/log", 10, None);
}

#[test]
fn durability_low() {
    let opts = make_options(512, Durability::Low, LogFormat::JSON);
    run_log_exercise("testlog/low/json", 100, Some(&opts));
}

#[test]
fn fresh_open_starts_empty() {
    let log = open_fresh("d", None);
    check_first_last(&log, 0, 0);
    let files = log.snapshot();
    assert_eq!(files.len(), 1);
    assert_eq!(files[0].name, segment_name(1).into_bytes());
    assert!(files[0].data.is_empty());
}

#[test]
fn append_then_read() {
    let mut log = open_fresh("d", None);
    log.write(1, b"data-1").expect("write");
    log.write(2, b"data-2").expect("write");
    assert_eq!(log.read(1).expect("read"), b"data-1".to_vec());
    assert_eq!(log.read(2).expect("read"), b"data-2".to_vec());
    check_first_last(&log, 1, 2);
}

#[test]
fn out_of_order_rejected() {
    let mut log = open_fresh("d", None);
    log.write(1, b"data-1").expect("write");
    log.write(2, b"data-2").expect("write");
    match log.write(2, b"again") {
        Err(Error::OutofOrder) => {}
        _ => panic!("expected OutofOrder"),
    }
    check_first_last(&log, 1, 2);
    assert_eq!(log.read(2).expect("read"), b"data-2".to_vec());
}

#[test]
fn reopen_preserves_entries() {
    let mut log = open_fresh("d", None);
    log.write(1, b"data-1").expect("write");
    log.write(2, b"data-2").expect("write");
    log.close().expect("close");
    let mut log = reopen(&log, None);
    check_first_last(&log, 1, 2);
    assert_eq!(log.read(1).expect("read"), b"data-1".to_vec());
}

#[test]
fn truncate_front_scenario() {
    let mut log = open_fresh("d", None);
    for i in 1..101u64 {
        log.write(i, data_str(i).as_bytes()).expect("write");
    }
    log.truncate_front(81).expect("truncate_front");
    check_first_last(&log, 81, 100);
    match log.read(80) {
        Err(Error::NotFound) => {}
        _ => panic!("expected NotFound"),
    }
    check_read(&mut log, 81);
}

#[test]
fn truncate_back_scenario() {
    let mut log = open_fresh("d", None);
    for i in 1..101u64 {
        log.write(i, data_str(i).as_bytes()).expect("write");
    }
    log.truncate_back(90).expect("truncate_back");
    check_first_last(&log, 1, 90);
    match log.read(91) {
        Err(Error::NotFound) => {}
        _ => panic!("expected NotFound"),
    }
    check_read(&mut log, 90);
    log.write(91, b"data-91").expect("write after truncate_back");
    assert_eq!(log.lastindex().expect("last"), 91);
    assert_eq!(log.read(91).expect("read"), b"data-91".to_vec());
}

#[test]
fn batch_append_scenario() {
    let mut log = open_fresh("d", None);
    let mut batch = Batch::new();
    batch.write(b"a");
    batch.write(b"bb");
    log.write_batch(&mut batch).expect("write_batch");
    check_first_last(&log, 1, 2);
    assert_eq!(log.read(1).expect("read"), b"a".to_vec());
    assert_eq!(log.read(2).expect("read"), b"bb".to_vec());
    assert_eq!(batch.data_sizes.len(), 0);
    assert_eq!(batch.datas.len(), 0);
}

#[test]
fn batch_size_mismatch_rejected() {
    let mut log = open_fresh("d", None);
    let mut batch = Batch::new();
    batch.write(b"abc");
    batch.data_sizes[0] = 2;
    match log.write_batch(&mut batch) {
        Err(Error::OutofOrder) => {}
        _ => panic!("mismatched batch should be rejected"),
    }
    assert_eq!(log.lastindex().expect("last"), 0);
}

#[test]
fn memory_path_rejected() {
    match Log::open(":memory:", Vec::new(), None) {
        Err(Error::InMemoryLog) => {}
        _ => panic!("expected InMemoryLog"),
    }
}

#[test]
fn corrupt_segment_rejected() {
    let files = vec![SegFile { name: segment_name(1).into_bytes(), data: vec![1, 2, 3] }];
    match Log::open("d", files, None) {
        Err(Error::Corrupt) => {}
        _ => panic!("expected Corrupt"),
    }
}

#[test]
fn both_markers_rejected() {
    let mut start_name = segment_name(2).into_bytes();
    start_name.extend_from_slice(b".START");
    let mut end_name = segment_name(3).into_bytes();
    end_name.extend_from_slice(b".END");
    let files = vec![
        SegFile { name: start_name, data: Vec::new() },
        SegFile { name: end_name, data: Vec::new() },
    ];
    match Log::open("d", files, None) {
        Err(Error::Corrupt) => {}
        _ => panic!("expected Corrupt"),
    }
}

#[test]
fn recovery_resumes_front_truncation() {
    // a directory as a crash during truncate_front(81) leaves it: the marker
    // holds the kept remainder, stale files linger before it
    let mut log = open_fresh("d", None);
    for i in 1..101u64 {
        log.write(i, data_str(i).as_bytes()).expect("write");
    }
    let stale = log.snapshot();
    log.truncate_front(81).expect("truncate_front");
    let kept = log.snapshot();
    let mut marker_name = segment_name(81).into_bytes();
    marker_name.extend_from_slice(b".START");
    let files = vec![
        SegFile { name: stale[0].name.clone(), data: stale[0].data.clone() },
        SegFile { name: marker_name, data: kept[0].data.clone() },
    ];
    let mut recovered = Log::open("d", files, None).expect("should recover");
    check_first_last(&recovered, 81, 100);
    check_read(&mut recovered, 81);
    check_read(&mut recovered, 100);
}

#[test]
fn recovery_resumes_back_truncation() {
    // a directory as a crash during truncate_back(90) leaves it: the marker
    // holds the kept prefix beside the old full segment
    let mut log = open_fresh("d", None);
    for i in 1..101u64 {
        log.write(i, data_str(i).as_bytes()).expect("write");
    }
    let stale = log.snapshot();
    log.truncate_back(90).expect("truncate_back");
    let kept = log.snapshot();
    let mut marker_name = segment_name(1).into_bytes();
    marker_name.extend_from_slice(b".END");
    let files = vec![
        SegFile { name: stale[0].name.clone(), data: stale[0].data.clone() },
        SegFile { name: marker_name, data: kept[0].data.clone() },
    ];
    let mut recovered = Log::open("d", files, None).expect("should recover");
    check_first_last(&recovered, 1, 90);
    check_read(&mut recovered, 1);
    check_read(&mut recovered, 90);
    match recovered.read(91) {
        Err(Error::NotFound) => {}
        _ => panic!("expected NotFound"),
    }
}

#[test]
fn batch_roundtrip_counts() {
    let mut b = Batch::new();
    b.write(b"a");
    b.write(b"bb");
    assert_eq!(b.data_sizes, vec![1, 2]);
    assert_eq!(b.datas, b"abb".to_vec());
    b.clear();
    assert_eq!(b.data_sizes.len(), 0);
    assert_eq!(b.datas.len(), 0);
}

#[test]
fn binary_record_layout() {
    let mut log = open_fresh("d", None);
    log.write(1, b"a").expect("write");
    let files = log.snapshot();
    assert_eq!(files.len(), 1);
    assert_eq!(files[0].name, segment_name(1).into_bytes());
    let bytes = &files[0].data;
    assert_eq!(bytes.len(), 17);
    assert_eq!(&bytes[0..8], &[0, 0, 0, 0, 0, 0, 0, 1]);
    assert_eq!(&bytes[8..16], &[0, 0, 0, 0, 0, 0, 0, 1]);
    assert_eq!(bytes[16], b'a');
}

#[test]
fn json_record_matches_serde() {
    let opts = make_options(52428800, Durability::High, LogFormat::JSON);
    let mut log = open_fresh("d", Some(&opts));
    log.write(1, b"ab").expect("write");
    log.write(2, b"").expect("write");
    let files = log.snapshot();
    let text = String::from_utf8(files[0].data.clone()).expect("utf8");
    let mut lines = text.split('\n');
    let first = lines.next().expect("first line");
    let second = lines.next().expect("second line");
    assert!(lines.next().is_none());
    let v: serde_json::Value = serde_json::from_str(first).expect("valid json");
    assert_eq!(v["index"], 1);
    assert_eq!(v["data"][0], 97);
    assert_eq!(v["data"][1], 98);
    let w: serde_json::Value = serde_json::from_str(second).expect("valid json");
    assert_eq!(w["index"], 2);
    assert_eq!(w["data"].as_array().expect("array").len(), 0);
}

#[test]
fn segmentation_rotates_active_file() {
    let opts = make_options(32, Durability::High, LogFormat::Binary);
    let mut log = open_fresh("d", Some(&opts));
    for i in 1..6u64 {
        log.write(i, data_str(i).as_bytes()).expect("write");
    }
    let files = log.snapshot();
    assert!(files.len() > 1, "active segment should have rotated");
    for f in &files {
        assert!(f.data.len() <= 32 + 22, "no segment grows unbounded");
    }
    for i in 1..6u64 {
        check_read(&mut log, i);
    }
}

#[test]
fn durability_low_buffers_until_flush() {
    let opts = make_options(52428800, Durability::Low, LogFormat::Binary);
    let mut log = open_fresh("d", Some(&opts));
    log.write(1, b"x").expect("write");
    assert!(log.snapshot()[0].data.is_empty(), "low durability should buffer");
    log.sync();
    assert_eq!(log.snapshot()[0].data.len(), 17);
}

#[test]
fn names_and_payload_text() {
    assert_eq!(segment_name(1), "00000000000000000001");
    assert_eq!(segment_name(12345), "00000000000000012345");
    assert_eq!(data_str(81), "data-81");
    assert_eq!(data_str(0), "data-0");
}

#[test]
fn error_messages() {
    assert_eq!(Error::Corrupt.message(), "log corrupt");
    assert_eq!(Error::Closed.message(), "log closed");
    assert_eq!(Error::NotFound.message(), "not found");
    assert_eq!(Error::OutofOrder.message(), "out of order");
    assert_eq!(Error::OutOfRange.message(), "out of range");
    assert_eq!(Error::InMemoryLog.message(), "in-memory log not supported");
}
