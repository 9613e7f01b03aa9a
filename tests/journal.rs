use blobstore::binlog::{BindLog, Operation, DESCRIPTOR_LEN, RECORD_LEN};
use blobstore::error::StoreError;

fn journal() -> BindLog {
    BindLog::new("./journal.log".to_string())
}

#[test]
fn journal_keeps_its_path() {
    assert_eq!(journal().path(), "./journal.log");
}

#[test]
fn record_layout() {
    let r = journal().inset(0x0102030405060708, "a/b", "create").unwrap();
    assert_eq!(r.len(), RECORD_LEN);
    assert_eq!(&r[..8], &[1, 2, 3, 4, 5, 6, 7, 8]);
    assert_eq!(&r[8..17], b"a/bcreate");
    assert!(r[17..].iter().all(|b| *b == 0));
}

#[test]
fn negative_timestamp_is_twos_complement() {
    let r = journal().inset(-1, "p", "delete").unwrap();
    assert_eq!(&r[..8], &[0xff; 8]);
}

#[test]
fn record_overflow() {
    let fits = "x".repeat(DESCRIPTOR_LEN - 6);
    assert!(journal().inset(1, &fits, "create").is_ok());
    let long = "x".repeat(DESCRIPTOR_LEN - 5);
    assert_eq!(journal().inset(1, &long, "create"), Err(StoreError::RecordOverflow));
}

fn log_of(entries: &[(i64, &str)]) -> Vec<u8> {
    let j = journal();
    let mut log = Vec::new();
    for (ts, path) in entries {
        log.extend(j.inset(*ts, path, Operation::Create.tag()).unwrap());
    }
    log
}

#[test]
fn find_nearest_at_or_before() {
    let log = log_of(&[(10, "a"), (20, "b"), (30, "c")]);
    let j = journal();
    let r = j.get(&log, 25).unwrap();
    assert_eq!(r.timestamp, 20);
    assert_eq!(r.descriptor, b"bcreate".to_vec());
    assert_eq!(j.get(&log, 30).unwrap().timestamp, 30);
    assert_eq!(j.get(&log, 1000).unwrap().timestamp, 30);
    assert_eq!(j.get(&log, 10).unwrap().timestamp, 10);
    assert!(j.get(&log, 9).is_none());
}

#[test]
fn find_in_empty_log() {
    assert!(journal().get(&[], 5).is_none());
}

#[test]
fn find_ignores_partial_record() {
    let mut log = log_of(&[(-5, "a"), (7, "b")]);
    log.extend([0u8; 10]);
    let j = journal();
    assert_eq!(j.get(&log, 0).unwrap().timestamp, -5);
    assert_eq!(j.get(&log, 100).unwrap().descriptor, b"bcreate".to_vec());
}

#[test]
fn operation_tags() {
    assert_eq!(Operation::Create.tag(), "create");
    assert_eq!(Operation::Update.tag(), "update");
    assert_eq!(Operation::Delete.tag(), "delete");
}
