//! File ids and file references: how a stored file is named.

use vstd::prelude::*;
use vstd::utf8::{decode_utf8, encode_utf8, valid_utf8};
use vstd::string::StringSliceAdditionalSpecFns;

use crate::error::StoreError;
use crate::text::{
    chars_of, decimal, decimal_chars, join_chars, join_with, lemma_no_sep_in_decimal, lemma_parse_decimal,
    lemma_split_join, parse_bounded, parse_unsigned, push_all, split_chars, split_on, string_of,
};

verus! {

broadcast use vstd::utf8::encode_utf8_decode_utf8, vstd::utf8::encode_utf8_valid_utf8;

/// The standard, padded base64 text of some bytes.
pub uninterp spec fn base64_of(b: Seq<u8>) -> Seq<char>;

/// The bytes that standard base64 text decodes to, if it is valid.
pub uninterp spec fn base64_decoded(s: Seq<char>) -> Option<Seq<u8>>;

/// The CRC-32 (IEEE) checksum of some bytes.
pub uninterp spec fn crc32_of(b: Seq<u8>) -> u32;

/// Relies on `base64::encode` (standard alphabet, padded): it returns the encoding of
/// `b`, which `base64::decode` turns back into `b`.
#[verifier::external_body]
#[allow(deprecated)]
fn base64_encode(b: &[u8]) -> (r: String)
    ensures
        r@ == base64_of(b@),
        base64_decoded(r@) == Some(b@),
{
    base64::encode(b)
}

/// Relies on `base64::decode` (standard alphabet, padded): the bytes, or an error.
#[verifier::external_body]
#[allow(deprecated)]
fn base64_decode(s: &str) -> (r: Option<Vec<u8>>)
    ensures
        r is Some <==> base64_decoded(s@) is Some,
        r is Some ==> base64_decoded(s@) == Some(r->0@),
{
    base64::decode(s).ok()
}

/// Relies on `String::from_utf8`: a string exactly when the bytes are valid UTF-8.
#[verifier::external_body]
fn utf8_string(b: &[u8]) -> (r: Option<String>)
    ensures
        r is Some <==> valid_utf8(b@),
        r is Some ==> r->0@ == decode_utf8(b@),
{
    String::from_utf8(b.to_vec()).ok()
}

/// Relies on `crc32fast::hash`: the CRC-32 of the bytes.
#[verifier::external_body]
pub(crate) fn gen_file_crc32(data: &[u8]) -> (r: u32)
    ensures
        r == crc32_of(data@),
{
    crc32fast::hash(data)
}

pub assume_specification<T>[ rand::random::<T> ]() -> (r: T)
    where
        rand::distributions::Standard: rand::distributions::Distribution<T>,
;

/// The shard directory of content whose checksum is `crc`.
pub open spec fn shard_of_crc(crc: u32) -> u32 {
    crc % 255
}

/// The shard directory of some content.
pub open spec fn shard_of(data: Seq<u8>) -> u32 {
    shard_of_crc(crc32_of(data))
}

/// The plain text of a file id: its five fields joined with `_`.
pub open spec fn file_id_text(host: Seq<char>, ts: u64, size: u64, crc: u32, nonce: u32) -> Seq<
    char,
> {
    join_with(
        seq![host, decimal(ts as nat), decimal(size as nat), decimal(crc as nat), decimal(nonce as nat)],
        '_',
    )
}

/// A file id: the base64 of its plain text's UTF-8 bytes.
pub open spec fn file_id_of(host: Seq<char>, ts: u64, size: u64, crc: u32, nonce: u32) -> Seq<
    char,
> {
    base64_of(encode_utf8(file_id_text(host, ts, size, crc, nonce)))
}

/// The decoded fields of a file id: host, creation time, length, checksum and nonce.
pub type FileIdFields = (String, u64, u64, u32, u32);

/// The fields of a file id, as values.
pub type FileIdModel = (Seq<char>, u64, u64, u32, u32);

pub open spec fn file_id_view(r: Result<FileIdFields, StoreError>) -> Result<FileIdModel, StoreError> {
    match r {
        Ok(f) => Ok((f.0@, f.1, f.2, f.3, f.4)),
        Err(e) => Err(e),
    }
}

/// The fields of the plain text of a file id.
pub open spec fn parse_file_id_text(t: Seq<char>) -> Result<FileIdModel, StoreError> {
    let f = split_on(t, '_');
    if f.len() != 5 {
        Err(StoreError::MalformedId)
    } else {
        match (
            parse_unsigned(f[1], u64::MAX as nat),
            parse_unsigned(f[2], u64::MAX as nat),
            parse_unsigned(f[3], u32::MAX as nat),
            parse_unsigned(f[4], u32::MAX as nat),
        ) {
            (Some(a), Some(b), Some(c), Some(d)) => Ok((f[0], a as u64, b as u64, c as u32, d as u32)),
            _ => Err(StoreError::InvalidField),
        }
    }
}

/// The fields of a file id whose base64 decodes to `b`.
pub open spec fn file_id_from_bytes(b: Seq<u8>) -> Result<FileIdModel, StoreError> {
    if valid_utf8(b) {
        parse_file_id_text(decode_utf8(b))
    } else {
        Err(StoreError::MalformedId)
    }
}

/// The fields of the file id `s`.
pub open spec fn decoded_file_id(s: Seq<char>) -> Result<FileIdModel, StoreError> {
    match base64_decoded(s) {
        Some(b) => file_id_from_bytes(b),
        None => Err(StoreError::MalformedId),
    }
}

/// The shard directory for a checksum: the checksum modulo 255.
pub fn inset_dir_by_key(crc: u32) -> (r: u32)
    ensures
        r == shard_of_crc(crc),
        r < 255,
{
    crc % 255
}

/// The shard directory of some content: its CRC-32 modulo 255.
pub fn shard_for(data: &[u8]) -> (r: u32)
    ensures
        r == shard_of(data@),
        r < 255,
{
    inset_dir_by_key(gen_file_crc32(data))
}

/// The shard of some content depends on its bytes alone, and is below 255.
pub proof fn lemma_shard_deterministic(a: Seq<u8>, b: Seq<u8>)
    requires
        a == b,
    ensures
        shard_of(a) == shard_of(b),
        shard_of(a) < 255,
{
}

/// Builds the file id of a file from its five fields.
pub fn encode_file_id(origin_host: &str, created_at: u64, byte_length: u64, crc32: u32, nonce: u32) -> (r:
    String)
    ensures
        r@ == file_id_of(origin_host@, created_at, byte_length, crc32, nonce),
        base64_decoded(r@) == Some(
            encode_utf8(file_id_text(origin_host@, created_at, byte_length, crc32, nonce)),
        ),
{
    let mut parts: Vec<Vec<char>> = Vec::new();
    parts.push(chars_of(origin_host));
    parts.push(decimal_chars(created_at));
    parts.push(decimal_chars(byte_length));
    parts.push(decimal_chars(crc32 as u64));
    parts.push(decimal_chars(nonce as u64));
    assert(parts.deep_view() =~~= seq![
        origin_host@,
        decimal(created_at as nat),
        decimal(byte_length as nat),
        decimal(crc32 as nat),
        decimal(nonce as nat),
    ]);
    let text = string_of(&join_chars(&parts, '_'));
    base64_encode(text.as_str().as_bytes())
}

/// Builds the file id of a new file, with a fresh random nonce.
pub fn gen_file_id(ip: &String, timestamp: u64, size: u64, crc32: u32) -> (r: String)
    ensures
        exists|nonce: u32|
            r@ == #[trigger] file_id_of(ip@, timestamp, size, crc32, nonce) && base64_decoded(r@)
                == Some(encode_utf8(file_id_text(ip@, timestamp, size, crc32, nonce))),
{
    let nonce: u32 = rand::random::<u32>();
    encode_file_id(ip.as_str(), timestamp, size, crc32, nonce)
}

/// Reads the fields of a file id from the bytes that its base64 decodes to.
pub fn parse_file_id(b: &[u8]) -> (r: Result<FileIdFields, StoreError>)
    ensures
        file_id_view(r) == file_id_from_bytes(b@),
{
    let text = match utf8_string(b) {
        Some(t) => t,
        None => return Err(StoreError::MalformedId),
    };
    let chars = chars_of(text.as_str());
    let f = split_chars(&chars, '_');
    assert(f.deep_view() == split_on(decode_utf8(b@), '_'));
    if f.len() != 5 {
        return Err(StoreError::MalformedId);
    }
    assert(f[1]@ == f.deep_view()[1] && f[2]@ == f.deep_view()[2]);
    assert(f[3]@ == f.deep_view()[3] && f[4]@ == f.deep_view()[4] && f[0]@ == f.deep_view()[0]);
    let timestamp = parse_bounded(&f[1], u64::MAX);
    let size = parse_bounded(&f[2], u64::MAX);
    let crc32 = parse_bounded(&f[3], u32::MAX as u64);
    let rand = parse_bounded(&f[4], u32::MAX as u64);
    match (timestamp, size, crc32, rand) {
        (Some(t), Some(s), Some(c), Some(n)) => Ok((string_of(&f[0]), t, s, c as u32, n as u32)),
        _ => Err(StoreError::InvalidField),
    }
}

/// Reads the five fields of a file id.
pub fn decode_file_id(s: &String) -> (r: Result<FileIdFields, StoreError>)
    ensures
        file_id_view(r) == decoded_file_id(s@),
{
    match base64_decode(s.as_str()) {
        Some(b) => parse_file_id(b.as_slice()),
        None => Err(StoreError::MalformedId),
    }
}

/// Decoding what `encode_file_id` returned gives back its five fields, when the host
/// holds no `_`.
pub proof fn lemma_file_id_round_trip(
    s: Seq<char>,
    host: Seq<char>,
    ts: u64,
    size: u64,
    crc: u32,
    nonce: u32,
)
    requires
        base64_decoded(s) == Some(encode_utf8(file_id_text(host, ts, size, crc, nonce))),
        !host.contains('_'),
    ensures
        decoded_file_id(s) == Ok::<FileIdModel, StoreError>((host, ts, size, crc, nonce)),
{
    let parts = seq![host, decimal(ts as nat), decimal(size as nat), decimal(crc as nat), decimal(nonce as nat)];
    lemma_no_sep_in_decimal(ts as nat, '_');
    lemma_no_sep_in_decimal(size as nat, '_');
    lemma_no_sep_in_decimal(crc as nat, '_');
    lemma_no_sep_in_decimal(nonce as nat, '_');
    assert forall|i: int| 0 <= i < parts.len() implies !(#[trigger] parts[i]).contains('_') by {
        if i == 0 {
        }
    }
    lemma_split_join(parts, '_');
    lemma_parse_decimal(ts as nat, u64::MAX as nat);
    lemma_parse_decimal(size as nat, u64::MAX as nat);
    lemma_parse_decimal(crc as nat, u32::MAX as nat);
    lemma_parse_decimal(nonce as nat, u32::MAX as nat);
}

/// File ids with different creation times, lengths, checksums or nonces differ, when the
/// host holds no `_`.
pub proof fn lemma_file_ids_distinct(
    s1: Seq<char>,
    s2: Seq<char>,
    host: Seq<char>,
    f1: (u64, u64, u32, u32),
    f2: (u64, u64, u32, u32),
)
    requires
        base64_decoded(s1) == Some(encode_utf8(file_id_text(host, f1.0, f1.1, f1.2, f1.3))),
        base64_decoded(s2) == Some(encode_utf8(file_id_text(host, f2.0, f2.1, f2.2, f2.3))),
        !host.contains('_'),
        f1 != f2,
    ensures
        s1 != s2,
{
    lemma_file_id_round_trip(s1, host, f1.0, f1.1, f1.2, f1.3);
    lemma_file_id_round_trip(s2, host, f2.0, f2.1, f2.2, f2.3);
}

/// References that differ only in their file ids differ.
pub proof fn lemma_references_distinct(
    group: Seq<char>,
    volume: Seq<char>,
    shard: Seq<char>,
    id1: Seq<char>,
    id2: Seq<char>,
    ext: Seq<char>,
)
    requires
        id1 != id2,
    ensures
        reference_text(group, volume, shard, id1, ext) != reference_text(group, volume, shard, id2, ext),
{
    let head = join_with(seq![group, volume, shard, shard], '/').push('/');
    let tail = seq!['/'] + ext;
    let r1 = reference_text(group, volume, shard, id1, ext);
    let r2 = reference_text(group, volume, shard, id2, ext);
    let p1 = seq![group, volume, shard, shard, id1, ext];
    let p2 = seq![group, volume, shard, shard, id2, ext];
    assert(p1.drop_last().drop_last() =~= seq![group, volume, shard, shard]);
    assert(p2.drop_last().drop_last() =~= seq![group, volume, shard, shard]);
    assert(p1.drop_last() =~= seq![group, volume, shard, shard, id1]);
    assert(p2.drop_last() =~= seq![group, volume, shard, shard, id2]);
    assert(join_with(p1.drop_last(), '/') == head + id1);
    assert(join_with(p2.drop_last(), '/') == head + id2);
    assert(r1 =~= head + id1 + tail);
    assert(r2 =~= head + id2 + tail);
    if r1 == r2 {
        assert(id1.len() == id2.len());
        assert((head + id1 + tail).subrange(head.len() as int, (head.len() + id1.len()) as int) =~= id1);
        assert((head + id2 + tail).subrange(head.len() as int, (head.len() + id2.len()) as int) =~= id2);
    }
}

/// A file id whose text does not split into five `_`-separated fields is malformed.
pub proof fn lemma_file_id_field_count(b: Seq<u8>)
    requires
        valid_utf8(b),
        split_on(decode_utf8(b), '_').len() != 5,
    ensures
        file_id_from_bytes(b) == Err::<FileIdModel, StoreError>(StoreError::MalformedId),
{
}

} // verus!

verus! {

/// A file reference: `group/volume/shard/shard/file_id/extension`.
pub open spec fn reference_text(
    group: Seq<char>,
    volume: Seq<char>,
    shard: Seq<char>,
    file_id: Seq<char>,
    ext: Seq<char>,
) -> Seq<char> {
    join_with(seq![group, volume, shard, shard, file_id, ext], '/')
}

/// The six fields of a file reference, as strings.
pub type ReferenceFields = (String, String, String, String, String, String);

/// The six fields of a file reference, as values.
pub type ReferenceModel = (Seq<char>, Seq<char>, Seq<char>, Seq<char>, Seq<char>, Seq<char>);

pub open spec fn reference_view(r: Result<ReferenceFields, StoreError>) -> Result<
    ReferenceModel,
    StoreError,
> {
    match r {
        Ok(f) => Ok((f.0@, f.1@, f.2@, f.3@, f.4@, f.5@)),
        Err(e) => Err(e),
    }
}

/// The fields of a file reference: exactly six `/`-separated fields.
pub open spec fn parse_reference(s: Seq<char>) -> Result<ReferenceModel, StoreError> {
    let f = split_on(s, '/');
    if f.len() != 6 {
        Err(StoreError::MalformedReference)
    } else {
        Ok((f[0], f[1], f[2], f[3], f[4], f[5]))
    }
}

/// Builds the reference of a stored file; the shard stands at both directory levels.
pub fn gen_file_name(
    group_name: &String,
    dir_name: &String,
    sub_dir_name: &String,
    file_id: &String,
    file_ext_name: &String,
) -> (r: String)
    ensures
        r@ == reference_text(group_name@, dir_name@, sub_dir_name@, file_id@, file_ext_name@),
{
    let mut parts: Vec<Vec<char>> = Vec::new();
    parts.push(chars_of(group_name.as_str()));
    parts.push(chars_of(dir_name.as_str()));
    parts.push(chars_of(sub_dir_name.as_str()));
    parts.push(chars_of(sub_dir_name.as_str()));
    parts.push(chars_of(file_id.as_str()));
    parts.push(chars_of(file_ext_name.as_str()));
    assert(parts.deep_view() =~~= seq![
        group_name@,
        dir_name@,
        sub_dir_name@,
        sub_dir_name@,
        file_id@,
        file_ext_name@,
    ]);
    string_of(&join_chars(&parts, '/'))
}

/// Splits a file reference into its six fields.
pub fn decode_file_name(file_name: &String) -> (r: Result<ReferenceFields, StoreError>)
    ensures
        reference_view(r) == parse_reference(file_name@),
{
    let chars = chars_of(file_name.as_str());
    let v = split_chars(&chars, '/');
    if v.len() != 6 {
        return Err(StoreError::MalformedReference);
    }
    assert(v[0]@ == v.deep_view()[0] && v[1]@ == v.deep_view()[1] && v[2]@ == v.deep_view()[2]);
    assert(v[3]@ == v.deep_view()[3] && v[4]@ == v.deep_view()[4] && v[5]@ == v.deep_view()[5]);
    Ok((
        string_of(&v[0]),
        string_of(&v[1]),
        string_of(&v[2]),
        string_of(&v[3]),
        string_of(&v[4]),
        string_of(&v[5]),
    ))
}

/// Splitting a reference gives back the fields it was built from, when none holds `/`.
pub proof fn lemma_reference_round_trip(
    group: Seq<char>,
    volume: Seq<char>,
    shard: Seq<char>,
    file_id: Seq<char>,
    ext: Seq<char>,
)
    requires
        !group.contains('/'),
        !volume.contains('/'),
        !shard.contains('/'),
        !file_id.contains('/'),
        !ext.contains('/'),
    ensures
        parse_reference(reference_text(group, volume, shard, file_id, ext)) == Ok::<
            ReferenceModel,
            StoreError,
        >((group, volume, shard, shard, file_id, ext)),
{
    let parts = seq![group, volume, shard, shard, file_id, ext];
    assert forall|i: int| 0 <= i < parts.len() implies !(#[trigger] parts[i]).contains('/') by {
        if i == 0 {
        }
    }
    lemma_split_join(parts, '/');
}

/// The provenance fields of a file id.
pub struct FileId {
    pub ip: String,
    pub timestamp: u64,
    pub size: u64,
    pub crc32: u32,
}

/// A file reference with its file id decoded.
pub struct FileMsg {
    pub group_name: String,
    pub dir_name: String,
    /// The two shard levels, as `shard/shard`.
    pub sub_dir_name: String,
    pub file_id: FileId,
    pub file_ext: String,
}

impl FileMsg {
    /// Decodes a file reference and the file id inside it.
    pub fn new(file_name: &String) -> (r: Result<FileMsg, StoreError>)
        ensures
            match parse_reference(file_name@) {
                Err(e) => r == Err::<FileMsg, StoreError>(e),
                Ok(f) => match decoded_file_id(f.4) {
                    Err(e) => r == Err::<FileMsg, StoreError>(e),
                    Ok(id) => r matches Ok(m) && m.group_name@ == f.0 && m.dir_name@ == f.1
                        && m.sub_dir_name@ == f.2 + seq!['/'] + f.3 && m.file_id.ip@ == id.0
                        && m.file_id.timestamp == id.1 && m.file_id.size == id.2
                        && m.file_id.crc32 == id.3 && m.file_ext@ == f.5,
                },
            },
    {
        let (group_name, dir_name, sub_dir_name0, sub_dir_name1, file_id, file_ext_name) =
            decode_file_name(file_name)?;
        let (ip, timestamp, size, crc32, _nonce) = decode_file_id(&file_id)?;
        let mut sub = chars_of(sub_dir_name0.as_str());
        sub.push('/');
        push_all(&mut sub, &chars_of(sub_dir_name1.as_str()));
        Ok(FileMsg {
            group_name,
            dir_name,
            sub_dir_name: string_of(&sub),
            file_id: FileId { ip, timestamp, size, crc32 },
            file_ext: file_ext_name,
        })
    }
}

} // verus!
