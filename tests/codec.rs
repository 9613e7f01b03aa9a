use blobstore::codec::{
    decode_file_id, decode_file_name, encode_file_id, gen_file_id, gen_file_name,
    inset_dir_by_key, parse_file_id, shard_for, FileMsg,
};
use blobstore::error::StoreError;

#[test]
fn file_id_encodes_to_base64_of_its_fields() {
    let id = encode_file_id("10.0.0.1", 1000, 42, 0xDEADBEEF, 7);
    assert_eq!(id, "MTAuMC4wLjFfMTAwMF80Ml8zNzM1OTI4NTU5Xzc=");
}

#[test]
fn file_id_round_trip() {
    let id = encode_file_id("10.0.0.1", 1000, 42, 0xDEADBEEF, 7);
    assert_eq!(
        decode_file_id(&id),
        Ok(("10.0.0.1".to_string(), 1000, 42, 0xDEADBEEF, 7))
    );
}

#[test]
fn file_id_with_four_fields_is_malformed() {
    assert_eq!(decode_file_id(&"YV8xXzJfMw==".to_string()), Err(StoreError::MalformedId));
}

#[test]
fn file_id_with_six_fields_is_malformed() {
    assert_eq!(decode_file_id(&"YV8xXzJfM180XzU=".to_string()), Err(StoreError::MalformedId));
}

#[test]
fn file_id_with_bad_number_is_invalid() {
    assert_eq!(decode_file_id(&"aF94XzJfM180".to_string()), Err(StoreError::InvalidField));
    assert_eq!(
        decode_file_id(&"aF8xXzJfNDI5NDk2NzI5Nl80".to_string()),
        Err(StoreError::InvalidField)
    );
}

#[test]
fn file_id_numbers_parse_like_std() {
    assert_eq!(
        decode_file_id(&"aF8rMTJfMl8zXzQ=".to_string()),
        Ok(("h".to_string(), 12, 2, 3, 4))
    );
}

#[test]
fn file_id_not_base64_is_malformed() {
    assert_eq!(decode_file_id(&"!!!".to_string()), Err(StoreError::MalformedId));
}

#[test]
fn file_id_not_utf8_is_malformed() {
    assert_eq!(decode_file_id(&"//4=".to_string()), Err(StoreError::MalformedId));
    assert_eq!(parse_file_id(&[0xff, 0xfe]), Err(StoreError::MalformedId));
}

#[test]
fn generated_file_id_decodes_to_its_fields() {
    let id = gen_file_id(&"localhost".to_string(), 1_700_000_000, 5, 907060870);
    let (host, ts, size, crc, _nonce) = decode_file_id(&id).unwrap();
    assert_eq!(host, "localhost");
    assert_eq!(ts, 1_700_000_000);
    assert_eq!(size, 5);
    assert_eq!(crc, 907060870);
}

#[test]
fn shard_is_crc32_mod_255() {
    assert_eq!(shard_for(b"hello"), 115);
    assert_eq!(shard_for(b"hello world"), 237);
    assert_eq!(shard_for(b""), 0);
    assert_eq!(inset_dir_by_key(300), 45);
    assert_eq!(inset_dir_by_key(u32::MAX), 0);
}

#[test]
fn shard_is_deterministic() {
    let data = vec![7u8; 1000];
    assert_eq!(shard_for(&data), shard_for(&data.clone()));
    assert!(shard_for(&data) < 255);
}

#[test]
fn reference_repeats_the_shard() {
    let r = gen_file_name(
        &"group1".to_string(),
        &"M00".to_string(),
        &"115".to_string(),
        &"abc".to_string(),
        &"png".to_string(),
    );
    assert_eq!(r, "group1/M00/115/115/abc/png");
}

#[test]
fn reference_round_trip() {
    let r = decode_file_name(&"group1/M00/115/115/abc/png".to_string()).unwrap();
    assert_eq!(
        r,
        (
            "group1".to_string(),
            "M00".to_string(),
            "115".to_string(),
            "115".to_string(),
            "abc".to_string(),
            "png".to_string()
        )
    );
}

#[test]
fn reference_with_wrong_field_count_is_malformed() {
    assert_eq!(
        decode_file_name(&"group1/M00/1/1/abc".to_string()),
        Err(StoreError::MalformedReference)
    );
    assert_eq!(
        decode_file_name(&"group1/M00/1/1/abc/png/x".to_string()),
        Err(StoreError::MalformedReference)
    );
    assert_eq!(decode_file_name(&"".to_string()), Err(StoreError::MalformedReference));
}

#[test]
fn file_msg_decodes_reference_and_id() {
    let id = encode_file_id("10.0.0.1", 1000, 42, 0xDEADBEEF, 7);
    let r = format!("group1/M00/115/115/{}/png", id);
    let m = FileMsg::new(&r).unwrap();
    assert_eq!(m.group_name, "group1");
    assert_eq!(m.dir_name, "M00");
    assert_eq!(m.sub_dir_name, "115/115");
    assert_eq!(m.file_id.ip, "10.0.0.1");
    assert_eq!(m.file_id.timestamp, 1000);
    assert_eq!(m.file_id.size, 42);
    assert_eq!(m.file_id.crc32, 0xDEADBEEF);
    assert_eq!(m.file_ext, "png");
}

#[test]
fn file_msg_rejects_bad_id() {
    assert!(matches!(
        FileMsg::new(&"group1/M00/1/1/YV8xXzJfMw==/png".to_string()),
        Err(StoreError::MalformedId)
    ));
    assert!(matches!(
        FileMsg::new(&"group1/M00/1/1".to_string()),
        Err(StoreError::MalformedReference)
    ));
}

#[test]
fn file_id_with_slash_breaks_the_reference() {
    let id = encode_file_id("ab?", 1, 2, 3, 4);
    assert_eq!(id, "YWI/XzFfMl8zXzQ=");
    let r = gen_file_name(
        &"group1".to_string(),
        &"M00".to_string(),
        &"1".to_string(),
        &id,
        &"png".to_string(),
    );
    assert_eq!(decode_file_name(&r), Err(StoreError::MalformedReference));
}
