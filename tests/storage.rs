use blobstore::error::StoreError;
use blobstore::next_file::SumSizeFile;
use blobstore::storage::{after_rename, has_unique_names, RenameOutcome, RootDir, Storage, WriteStep};

fn volume(name: &str, dir: &str, read_write: bool) -> RootDir {
    RootDir::new(name.to_string(), dir.to_string(), read_write, 1 << 40, SumSizeFile::new())
}

#[test]
fn write_read_round_trip() {
    let mut s = Storage::new(vec![volume("M00", "./data", true)]);
    let data = b"hello".to_vec();
    let a = s.save_file(&data, &"txt".to_string(), 1_700_000_000).unwrap();
    let b = s.save_file(&data, &"txt".to_string(), 1_700_000_000).unwrap();
    assert_ne!(a.reference, b.reference);
    for plan in [&a, &b] {
        assert!(plan.reference.starts_with("group1/M00/115/115/"));
        assert!(plan.reference.ends_with("/txt"));
        assert_eq!(plan.parent_dir, "./data/115/115");
        assert_eq!(plan.final_path, format!("./data/115/115/{}.txt", plan.file_id));
        assert_eq!(plan.tmp_path, format!("./tmp/{}", plan.file_id));
        assert_eq!(plan.size, 5);
        assert_eq!(
            s.decode_file_name_to_real_file_name(&plan.reference).unwrap(),
            plan.final_path
        );
    }
}

#[test]
fn read_of_unknown_volume_fails() {
    let s = Storage::new(vec![volume("M00", "./data", true)]);
    assert_eq!(
        s.decode_file_name_to_real_file_name(&"group1/M09/1/1/abc/txt".to_string()),
        Err(StoreError::UnknownVolume)
    );
}

#[test]
fn read_of_malformed_reference_fails() {
    let s = Storage::new(vec![volume("M00", "./data", true)]);
    assert_eq!(
        s.decode_file_name_to_real_file_name(&"group1/M00/abc".to_string()),
        Err(StoreError::MalformedReference)
    );
}

#[test]
fn writes_alternate_between_equal_volumes() {
    let mut s = Storage::new(vec![volume("M00", "./a", true), volume("M01", "./b", true)]);
    let v: Vec<usize> = (0..4)
        .map(|_| s.save_file(b"x", &"bin".to_string(), 1).unwrap().volume)
        .collect();
    assert_eq!(v, vec![0, 1, 0, 1]);
}

#[test]
fn no_writable_volume() {
    let mut empty = Storage::new(vec![]);
    assert!(matches!(
        empty.save_file(b"x", &"bin".to_string(), 1),
        Err(StoreError::NoWritableVolume)
    ));
    let mut read_only = Storage::new(vec![volume("M00", "./data", false)]);
    assert!(matches!(
        read_only.save_file(b"x", &"bin".to_string(), 1),
        Err(StoreError::NoWritableVolume)
    ));
}

#[test]
fn read_only_volume_is_skipped() {
    let mut s = Storage::new(vec![volume("M00", "./a", false), volume("M01", "./b", true)]);
    for _ in 0..3 {
        assert_eq!(s.save_file(b"x", &"bin".to_string(), 1).unwrap().volume, 1);
    }
}

#[test]
fn recorded_sizes_are_reported() {
    let mut s = Storage::new(vec![volume("M00", "./a", true), volume("M01", "./b", true)]);
    s.record_saved(1, 10).unwrap();
    s.record_saved(1, 5).unwrap();
    assert_eq!(s.record_saved(0, u64::MAX), Ok(()));
    assert_eq!(s.record_saved(0, 1), Err(StoreError::SizeOverflow));
    let sizes = s.root_dir_sizes();
    assert_eq!(sizes.len(), 2);
    assert_eq!(sizes[0].root_name, "M00");
    assert_eq!(sizes[0].size, u64::MAX);
    assert_eq!(sizes[1].root_name, "M01");
    assert_eq!(sizes[1].size, 15);
    assert_eq!(s.root_dirs()[1].used_bytes(), 15);
}

#[test]
fn size_log_lies_in_the_volume_root() {
    assert_eq!(
        RootDir::size_file_path(&"./data".to_string()),
        "./data/current_dir_size.txt"
    );
}

#[test]
fn duplicate_names_are_detected() {
    assert!(has_unique_names(&vec![volume("M00", "./a", true), volume("M01", "./b", true)]));
    assert!(!has_unique_names(&vec![volume("M00", "./a", true), volume("M00", "./b", true)]));
    assert!(has_unique_names(&vec![]));
}

#[test]
fn volume_accessors() {
    let v = volume("M00", "./data", true);
    assert_eq!(v.name(), "M00");
    assert_eq!(v.dir(), "./data");
    assert!(v.read_write());
    assert_eq!(v.max_disk_size(), 1 << 40);
    assert_eq!(v.used_bytes(), 0);
}

#[test]
fn rename_is_retried_once_for_missing_parent() {
    assert_eq!(after_rename(false, RenameOutcome::Renamed), WriteStep::Commit);
    assert_eq!(after_rename(true, RenameOutcome::Renamed), WriteStep::Commit);
    assert_eq!(
        after_rename(false, RenameOutcome::ParentMissing),
        WriteStep::CreateParentAndRetry
    );
    assert_eq!(after_rename(true, RenameOutcome::ParentMissing), WriteStep::Fail);
    assert_eq!(after_rename(false, RenameOutcome::Failed), WriteStep::Fail);
}

#[test]
fn writes_follow_volume_weights() {
    let mut s = Storage::new(vec![
        volume("M00", "./a", true).with_weight(2),
        volume("M01", "./b", true),
    ]);
    let v: Vec<usize> = (0..6)
        .map(|_| s.save_file(b"x", &"bin".to_string(), 1).unwrap().volume)
        .collect();
    assert_eq!(v, vec![0, 0, 1, 0, 0, 1]);
}
