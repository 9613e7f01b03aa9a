//! The operation journal: fixed-width records of storage operations, appended in time
//! order and found again by binary search on their timestamps.

use vstd::prelude::*;
use vstd::string::StringSliceAdditionalSpecFns;

use crate::error::StoreError;
use crate::next_file::{be_bytes, be_decode, be_encode, be_value, lemma_be_round_trip};

verus! {

/// The width of one journal record: an 8-byte timestamp and a 67-byte descriptor.
pub const RECORD_LEN: usize = 75;

/// The width of a record's descriptor field.
pub const DESCRIPTOR_LEN: usize = 67;

/// What was done to a path.
#[derive(Debug, Clone, Copy, PartialEq, Eq, Structural)]
pub enum Operation {
    Create,
    Update,
    Delete,
}

/// The tag that a journal record carries for an operation.
pub open spec fn operation_tag(op: Operation) -> Seq<char> {
    match op {
        Operation::Create => "create"@,
        Operation::Update => "update"@,
        Operation::Delete => "delete"@,
    }
}

impl Operation {
    /// The tag that a journal record carries for this operation.
    pub fn tag(&self) -> (r: &'static str)
        ensures
            r@ == operation_tag(*self),
    {
        match self {
            Operation::Create => "create",
            Operation::Update => "update",
            Operation::Delete => "delete",
        }
    }
}

/// The descriptor of a record: the path's UTF-8 bytes, then the tag's.
pub open spec fn descriptor_of(path: Seq<char>, op: Seq<char>) -> Seq<u8> {
    vstd::utf8::encode_utf8(path) + vstd::utf8::encode_utf8(op)
}

/// A whole record: the timestamp's eight big-endian bytes (two's complement), then the
/// descriptor padded with zeros to its width.
pub open spec fn record_of(timestamp: i64, desc: Seq<u8>) -> Seq<u8> {
    be_bytes(timestamp as u64) + desc + Seq::new((67 - desc.len()) as nat, |i: int| 0u8)
}

/// The number of complete records in a log; a trailing partial record is not one.
pub open spec fn record_count(log: Seq<u8>) -> int {
    (log.len() / 75) as int
}

/// The timestamp of the `k`-th record.
pub open spec fn timestamp_at(log: Seq<u8>, k: int) -> i64 {
    (be_value(log.subrange(75 * k, 75 * k + 8)) as u64) as i64
}

/// Bytes without their trailing zeros.
pub open spec fn trim_zeros(s: Seq<u8>) -> Seq<u8>
    decreases s.len(),
{
    if s.len() > 0 && s.last() == 0 {
        trim_zeros(s.drop_last())
    } else {
        s
    }
}

/// The descriptor of the `k`-th record, without its zero padding.
pub open spec fn descriptor_at(log: Seq<u8>, k: int) -> Seq<u8> {
    trim_zeros(log.subrange(75 * k + 8, 75 * k + 75))
}

/// Whether the records' timestamps never decrease.
pub open spec fn journal_sorted(log: Seq<u8>) -> bool {
    forall|i: int, j: int|
        0 <= i < j < record_count(log) ==> timestamp_at(log, i) <= timestamp_at(log, j)
}

/// One record of the journal.
pub struct JournalRecord {
    pub timestamp: i64,
    /// The path and the operation tag, without the zero padding.
    pub descriptor: Vec<u8>,
}

/// Whether `r` is the `k`-th record of `log`.
pub open spec fn is_record_at(r: JournalRecord, log: Seq<u8>, k: int) -> bool {
    &&& 0 <= k < record_count(log)
    &&& r.timestamp == timestamp_at(log, k)
    &&& r.descriptor@ == descriptor_at(log, k)
}

/// The journal of one log file.
pub struct BindLog {
    path: String,
}

fn record_timestamp(log: &[u8], k: usize) -> (r: i64)
    requires
        k < record_count(log@),
    ensures
        r == timestamp_at(log@, k as int),
{
    let len = log.len();
    assert(75 * k + 75 <= len) by (nonlinear_arith)
        requires
            k < len / 75,
    {
    }
    be_decode(log, 75 * k) as i64
}

fn record_at(log: &[u8], k: usize) -> (r: JournalRecord)
    requires
        k < record_count(log@),
    ensures
        is_record_at(r, log@, k as int),
{
    let len = log.len();
    assert(75 * k + 75 <= len) by (nonlinear_arith)
        requires
            k < len / 75,
    {
    }
    let start = 75 * k + 8;
    let mut end = 75 * k + 75;
    let ghost field = log@.subrange(start as int, end as int);
    while end > start && log[end - 1] == 0
        invariant
            start <= end <= 75 * k + 75,
            75 * k + 75 <= log@.len(),
            field == log@.subrange(75 * k + 8, 75 * k + 75),
            trim_zeros(log@.subrange(start as int, end as int)) == trim_zeros(field),
        decreases end - start,
    {
        assert(log@.subrange(start as int, end as int).drop_last() =~= log@.subrange(
            start as int,
            end - 1,
        ));
        end -= 1;
    }
    assert(trim_zeros(log@.subrange(start as int, end as int)) == log@.subrange(
        start as int,
        end as int,
    ));
    let mut descriptor: Vec<u8> = Vec::new();
    let mut i = start;
    while i < end
        invariant
            start <= i <= end,
            end <= log@.len(),
            descriptor@ == log@.subrange(start as int, i as int),
        decreases end - i,
    {
        descriptor.push(log[i]);
        i += 1;
        assert(descriptor@ =~= log@.subrange(start as int, i as int));
    }
    JournalRecord { timestamp: record_timestamp(log, k), descriptor }
}

impl BindLog {
    /// The file that holds this journal.
    pub closed spec fn spec_path(&self) -> Seq<char> {
        self.path@
    }

    /// A journal kept in the file at `path`.
    pub fn new(path: String) -> (r: BindLog)
        ensures
            r.spec_path() == path@,
    {
        BindLog { path }
    }

    /// The file that holds this journal.
    pub fn path(&self) -> (r: &String)
        ensures
            r@ == self.spec_path(),
    {
        &self.path
    }

    /// The record to append for `op` on `path` at `timestamp`; `RecordOverflow` when the
    /// path and the tag do not fit in the descriptor field.
    pub fn inset(&self, timestamp: i64, path: &str, op: &str) -> (r: Result<Vec<u8>, StoreError>)
        ensures
            descriptor_of(path@, op@).len() <= 67 ==> (r matches Ok(b) && b@ == record_of(
                timestamp,
                descriptor_of(path@, op@),
            )),
            descriptor_of(path@, op@).len() > 67 ==> r == Err::<Vec<u8>, StoreError>(
                StoreError::RecordOverflow,
            ),
    {
        let p = path.as_bytes();
        let o = op.as_bytes();
        if p.len() > DESCRIPTOR_LEN || o.len() > DESCRIPTOR_LEN - p.len() {
            return Err(StoreError::RecordOverflow);
        }
        let mut buffer = be_encode(timestamp as u64);
        let mut i: usize = 0;
        while i < p.len()
            invariant
                i <= p@.len(),
                buffer@ == be_bytes(timestamp as u64) + p@.subrange(0, i as int),
            decreases p@.len() - i,
        {
            buffer.push(p[i]);
            i += 1;
            assert(buffer@ =~= be_bytes(timestamp as u64) + p@.subrange(0, i as int));
        }
        assert(p@.subrange(0, p@.len() as int) =~= p@);
        let mut i: usize = 0;
        while i < o.len()
            invariant
                i <= o@.len(),
                buffer@ == be_bytes(timestamp as u64) + p@ + o@.subrange(0, i as int),
            decreases o@.len() - i,
        {
            buffer.push(o[i]);
            i += 1;
            assert(buffer@ =~= be_bytes(timestamp as u64) + p@ + o@.subrange(0, i as int));
        }
        assert(o@.subrange(0, o@.len() as int) =~= o@);
        let ghost desc = p@ + o@;
        assert(buffer@ =~= be_bytes(timestamp as u64) + desc);
        proof {
            lemma_be_round_trip(timestamp as u64);
        }
        let mut i: usize = p.len() + o.len();
        while i < DESCRIPTOR_LEN
            invariant
                desc.len() <= i <= 67,
                buffer@ == be_bytes(timestamp as u64) + desc + Seq::new(
                    (i - desc.len()) as nat,
                    |j: int| 0u8,
                ),
            decreases 67 - i,
        {
            buffer.push(0);
            i += 1;
            assert(buffer@ =~= be_bytes(timestamp as u64) + desc + Seq::new(
                (i - desc.len()) as nat,
                |j: int| 0u8,
            ));
        }
        Ok(buffer)
    }

    /// Finds, by binary search, the record nearest at or before `timestamp`: one whose
    /// timestamp is at most `timestamp` and whose successor's is later. In a log sorted by
    /// time that is the last record at or before `timestamp`, and there is none exactly
    /// when the log is empty or all its records are later.
    pub fn get(&self, log: &[u8], timestamp: i64) -> (r: Option<JournalRecord>)
        ensures
            r is None ==> record_count(log@) == 0 || timestamp_at(log@, 0) > timestamp,
            r is Some ==> exists|k: int|
                #[trigger] is_record_at(r->0, log@, k) && timestamp_at(log@, k) <= timestamp && (k + 1
                    == record_count(log@) || timestamp_at(log@, k + 1) > timestamp) && (
                journal_sorted(log@) ==> forall|j: int|
                    k < j < record_count(log@) ==> timestamp_at(log@, j) > timestamp),
            journal_sorted(log@) ==> (r is None <==> forall|j: int|
                0 <= j < record_count(log@) ==> timestamp_at(log@, j) > timestamp),
    {
        let count = log.len() / RECORD_LEN;
        let mut lo: usize = 0;
        let mut hi: usize = count;
        while lo < hi
            invariant
                lo <= hi <= count,
                count == record_count(log@),
                lo == 0 || timestamp_at(log@, lo - 1) <= timestamp,
                hi == count || timestamp_at(log@, hi as int) > timestamp,
                journal_sorted(log@) ==> forall|j: int|
                    0 <= j < lo ==> timestamp_at(log@, j) <= timestamp,
                journal_sorted(log@) ==> forall|j: int|
                    hi <= j < count ==> timestamp_at(log@, j) > timestamp,
            decreases hi - lo,
        {
            let mid = lo + (hi - lo) / 2;
            let t = record_timestamp(log, mid);
            if t <= timestamp {
                lo = mid + 1;
            } else {
                hi = mid;
            }
        }
        if lo == 0 {
            None
        } else {
            let rec = record_at(log, lo - 1);
            let ghost k = lo - 1;
            let r = Some(rec);
            assert(is_record_at(r->0, log@, k));
            r
        }
    }
}

/// A record read back from the end of a log of whole records holds the timestamp and the
/// descriptor it was written with.
pub proof fn lemma_record_round_trip(log: Seq<u8>, timestamp: i64, desc: Seq<u8>)
    requires
        log.len() % 75 == 0,
        desc.len() <= 67,
        desc.len() == 0 || desc.last() != 0,
    ensures
        record_count(log + record_of(timestamp, desc)) == record_count(log) + 1,
        timestamp_at(log + record_of(timestamp, desc), record_count(log)) == timestamp,
        descriptor_at(log + record_of(timestamp, desc), record_count(log)) == desc,
{
    let full = log + record_of(timestamp, desc);
    let k = record_count(log);
    lemma_be_round_trip(timestamp as u64);
    assert(full.len() == log.len() + 75);
    assert(75 * k == log.len());
    assert(full.subrange(75 * k, 75 * k + 8) =~= be_bytes(timestamp as u64));
    assert(((timestamp as u64) as i64) == timestamp) by (bit_vector);
    let padded = desc + Seq::new((67 - desc.len()) as nat, |i: int| 0u8);
    assert(full.subrange(75 * k + 8, 75 * k + 75) =~= padded);
    lemma_trim_padding(desc, (67 - desc.len()) as nat);
}

proof fn lemma_trim_padding(desc: Seq<u8>, n: nat)
    requires
        desc.len() == 0 || desc.last() != 0,
    ensures
        trim_zeros(desc + Seq::new(n, |i: int| 0u8)) == desc,
    decreases n,
{
    if n == 0 {
        assert(desc + Seq::new(n, |i: int| 0u8) =~= desc);
    } else {
        assert((desc + Seq::new(n, |i: int| 0u8)).drop_last() =~= desc + Seq::new(
            (n - 1) as nat,
            |i: int| 0u8,
        ));
        lemma_trim_padding(desc, (n - 1) as nat);
    }
}

} // verus!
