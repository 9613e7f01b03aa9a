use blobstore::error::StoreError;
use blobstore::next_file::SumSizeFile;

fn append(acct: &mut SumSizeFile, log: &mut Vec<u8>, value: u64) {
    log.extend(SumSizeFile::record(value));
    acct.inset(value).unwrap();
}

#[test]
fn size_accountant_durability() {
    let mut acct = SumSizeFile::new();
    let mut log = Vec::new();
    append(&mut acct, &mut log, 3);
    append(&mut acct, &mut log, 4);
    append(&mut acct, &mut log, 5);
    assert_eq!(acct.get_cursor(), 12);
    let compacted = acct.sum(&log).unwrap();
    assert_eq!(acct.get_cursor(), 12);
    assert_eq!(compacted, 12u64.to_be_bytes().to_vec());

    let mut reopened = SumSizeFile::new();
    let again = reopened.sum(&compacted).unwrap();
    assert_eq!(reopened.get_cursor(), 12);
    assert_eq!(again, compacted);
}

#[test]
fn record_is_big_endian() {
    assert_eq!(
        SumSizeFile::record(0x0102030405060708),
        vec![1, 2, 3, 4, 5, 6, 7, 8]
    );
    assert_eq!(SumSizeFile::record(3), vec![0, 0, 0, 0, 0, 0, 0, 3]);
}

#[test]
fn partial_trailing_record_is_ignored() {
    let mut log = SumSizeFile::record(100);
    log.extend(SumSizeFile::record(23));
    log.extend([0xff, 0xff, 0xff]);
    let mut acct = SumSizeFile::new();
    assert_eq!(acct.sum(&log).unwrap(), 123u64.to_be_bytes().to_vec());
    assert_eq!(acct.get_cursor(), 123);
}

#[test]
fn empty_log_totals_zero() {
    let mut acct = SumSizeFile::new();
    assert_eq!(acct.sum(&[]).unwrap(), vec![0u8; 8]);
    assert_eq!(acct.get_cursor(), 0);
}

#[test]
fn inset_refuses_overflow() {
    let mut acct = SumSizeFile::new();
    acct.inset(1).unwrap();
    assert_eq!(acct.inset(u64::MAX), Err(StoreError::SizeOverflow));
    assert_eq!(acct.get_cursor(), 1);
}

#[test]
fn sum_refuses_overflow() {
    let mut log = SumSizeFile::record(u64::MAX);
    log.extend(SumSizeFile::record(1));
    let mut acct = SumSizeFile::new();
    acct.inset(9).unwrap();
    assert_eq!(acct.sum(&log), Err(StoreError::SizeOverflow));
    assert_eq!(acct.get_cursor(), 9);
}
