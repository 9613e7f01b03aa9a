//! The size accountant: a durable running total of the bytes stored on a volume, kept as
//! an append-only log of 8-byte big-endian records and compacted to a single record.

use vstd::prelude::*;

use crate::error::StoreError;
use vstd::arithmetic::div_mod::{lemma_breakdown, lemma_small_mod};
use vstd::arithmetic::power::{lemma_pow_positive, pow};

verus! {

/// The number that big-endian bytes denote.
pub open spec fn be_value(b: Seq<u8>) -> nat
    decreases b.len(),
{
    if b.len() == 0 {
        0
    } else {
        be_value(b.drop_last()) * 256 + b.last() as nat
    }
}

/// The `n` low-order bytes of `v`, most significant first.
pub open spec fn be_bytes_of(v: nat, n: nat) -> Seq<u8>
    decreases n,
{
    if n == 0 {
        Seq::<u8>::empty()
    } else {
        be_bytes_of(v / 256, (n - 1) as nat).push((v % 256) as u8)
    }
}

/// The eight big-endian bytes of `v`.
pub open spec fn be_bytes(v: u64) -> Seq<u8> {
    be_bytes_of(v as nat, 8)
}

/// The value of the `k`-th record of a log.
pub open spec fn record_value(log: Seq<u8>, k: int) -> nat {
    be_value(log.subrange(8 * k, 8 * k + 8))
}

/// The sum of the first `k` records of a log.
pub open spec fn records_total(log: Seq<u8>, k: nat) -> nat
    decreases k,
{
    if k == 0 {
        0
    } else {
        records_total(log, (k - 1) as nat) + record_value(log, k - 1)
    }
}

/// The sum of all complete records of a log; a trailing partial record counts for nothing.
pub open spec fn log_total(log: Seq<u8>) -> nat {
    records_total(log, log.len() / 8)
}

proof fn lemma_be_value_8(b: Seq<u8>)
    requires
        b.len() == 8,
    ensures
        be_value(b) == b[0] as nat * 0x100000000000000 + b[1] as nat * 0x1000000000000 + b[2] as nat
            * 0x10000000000 + b[3] as nat * 0x100000000 + b[4] as nat * 0x1000000 + b[5] as nat
            * 0x10000 + b[6] as nat * 0x100 + b[7] as nat,
{
    assert(b.subrange(0, 0).len() == 0);
    assert forall|j: int| 1 <= j <= 8 implies be_value(#[trigger] b.subrange(0, j)) == be_value(
        b.subrange(0, j - 1),
    ) * 256 + b[j - 1] as nat by {
        assert(b.subrange(0, j).drop_last() =~= b.subrange(0, j - 1));
    }
    assert(b.subrange(0, 8) =~= b);
    assert(be_value(b.subrange(0, 1)) == b[0] as nat);
    assert(be_value(b.subrange(0, 2)) == b[0] as nat * 0x100 + b[1] as nat);
    assert(be_value(b.subrange(0, 3)) == b[0] as nat * 0x10000 + b[1] as nat * 0x100 + b[2] as nat);
    assert(be_value(b.subrange(0, 4)) == b[0] as nat * 0x1000000 + b[1] as nat * 0x10000 + b[2] as nat
        * 0x100 + b[3] as nat);
    assert(be_value(b.subrange(0, 5)) == b[0] as nat * 0x100000000 + b[1] as nat * 0x1000000 + b[2]
        as nat * 0x10000 + b[3] as nat * 0x100 + b[4] as nat);
    assert(be_value(b.subrange(0, 6)) == b[0] as nat * 0x10000000000 + b[1] as nat * 0x100000000
        + b[2] as nat * 0x1000000 + b[3] as nat * 0x10000 + b[4] as nat * 0x100 + b[5] as nat);
    assert(be_value(b.subrange(0, 7)) == b[0] as nat * 0x1000000000000 + b[1] as nat
        * 0x10000000000 + b[2] as nat * 0x100000000 + b[3] as nat * 0x1000000 + b[4] as nat
        * 0x10000 + b[5] as nat * 0x100 + b[6] as nat);
}

proof fn lemma_be_bytes_of(v: nat, n: nat)
    ensures
        be_bytes_of(v, n).len() == n,
        be_value(be_bytes_of(v, n)) == v % (pow(256, n) as nat),
    decreases n,
{
    reveal(pow);
    if n > 0 {
        lemma_be_bytes_of(v / 256, (n - 1) as nat);
        assert(be_bytes_of(v, n).drop_last() =~= be_bytes_of(v / 256, (n - 1) as nat));
        lemma_pow_positive(256, (n - 1) as nat);
        lemma_breakdown(v as int, 256, pow(256, (n - 1) as nat));
    }
}

/// Reading the eight bytes of `v` gives `v` back.
pub proof fn lemma_be_round_trip(v: u64)
    ensures
        be_value(be_bytes(v)) == v,
        be_bytes(v).len() == 8,
{
    lemma_be_bytes_of(v as nat, 8);
    reveal(pow);
    assert(pow(256, 0) == 1);
    assert(pow(256, 1) == 0x100);
    assert(pow(256, 2) == 0x10000);
    assert(pow(256, 3) == 0x1000000);
    assert(pow(256, 4) == 0x100000000);
    assert(pow(256, 5) == 0x10000000000);
    assert(pow(256, 6) == 0x1000000000000);
    assert(pow(256, 7) == 0x100000000000000);
    assert(pow(256, 8) == 0x10000000000000000);
    lemma_small_mod(v as nat, 0x10000000000000000);
}

fn be_encode_n(v: u64, n: usize) -> (r: Vec<u8>)
    ensures
        r@ == be_bytes_of(v as nat, n as nat),
    decreases n,
{
    if n == 0 {
        Vec::new()
    } else {
        let mut r = be_encode_n(v / 256, n - 1);
        r.push((v % 256) as u8);
        r
    }
}

/// The eight big-endian bytes of `v`.
pub fn be_encode(v: u64) -> (r: Vec<u8>)
    ensures
        r@ == be_bytes(v),
{
    be_encode_n(v, 8)
}

/// The number held in the eight big-endian bytes at `off`.
pub fn be_decode(b: &[u8], off: usize) -> (r: u64)
    requires
        off + 8 <= b@.len(),
    ensures
        r == be_value(b@.subrange(off as int, off + 8)),
{
    let ghost s = b@.subrange(off as int, off + 8);
    proof {
        lemma_be_value_8(s);
    }
    (b[off] as u64) * 0x100000000000000 + (b[off + 1] as u64) * 0x1000000000000 + (b[off + 2]
        as u64) * 0x10000000000 + (b[off + 3] as u64) * 0x100000000 + (b[off + 4] as u64)
        * 0x1000000 + (b[off + 5] as u64) * 0x10000 + (b[off + 6] as u64) * 0x100 + (b[off + 7]
        as u64)
}

proof fn lemma_records_total_prefix(log: Seq<u8>, extra: Seq<u8>, k: nat)
    requires
        8 * k <= log.len(),
    ensures
        records_total(log + extra, k) == records_total(log, k),
    decreases k,
{
    if k > 0 {
        lemma_records_total_prefix(log, extra, (k - 1) as nat);
        assert((log + extra).subrange(8 * (k - 1), 8 * (k - 1) + 8) =~= log.subrange(
            8 * (k - 1),
            8 * (k - 1) + 8,
        ));
    }
}

/// Appending a record to a log of whole records adds its value to the total.
pub proof fn lemma_append_record(log: Seq<u8>, delta: u64)
    requires
        log.len() % 8 == 0,
    ensures
        log_total(log + be_bytes(delta)) == log_total(log) + delta,
{
    let k: int = (log.len() / 8) as int;
    let full = log + be_bytes(delta);
    lemma_be_round_trip(delta);
    assert(full.len() / 8 == k + 1);
    lemma_records_total_prefix(log, be_bytes(delta), k as nat);
    assert(full.subrange(8 * k, 8 * k + 8) =~= be_bytes(delta));
    lemma_be_round_trip(delta);
}

/// A trailing partial record, as a crash in the middle of an append leaves, counts for
/// nothing.
pub proof fn lemma_partial_record_ignored(log: Seq<u8>, partial: Seq<u8>)
    requires
        log.len() % 8 == 0,
        partial.len() < 8,
    ensures
        log_total(log + partial) == log_total(log),
{
    assert((log + partial).len() / 8 == log.len() / 8);
    lemma_records_total_prefix(log, partial, (log.len() / 8) as nat);
}

/// The compacted log holds the total it was compacted from.
pub proof fn lemma_compacted_total(total: u64)
    ensures
        log_total(be_bytes(total)) == total,
{
    assert(be_bytes(total) =~= Seq::<u8>::empty() + be_bytes(total));
    lemma_append_record(Seq::<u8>::empty(), total);
}

/// A durable running total of the bytes committed to a volume.
pub struct SumSizeFile {
    sum: u64,
}

impl View for SumSizeFile {
    type V = nat;

    closed spec fn view(&self) -> nat {
        self.sum as nat
    }
}

impl SumSizeFile {
    /// An accountant whose total is zero, before its log has been read.
    pub fn new() -> (r: SumSizeFile)
        ensures
            r@ == 0,
    {
        SumSizeFile { sum: 0 }
    }

    /// The record that `inset` of `value` appends to the log.
    pub fn record(value: u64) -> (r: Vec<u8>)
        ensures
            r@ == be_bytes(value),
    {
        be_encode(value)
    }

    /// Adds `value`, once its record has been appended to the log; refuses a total that
    /// `u64` cannot hold and leaves the total as it was.
    pub fn inset(&mut self, value: u64) -> (r: Result<(), StoreError>)
        ensures
            old(self)@ + value <= u64::MAX ==> r is Ok && final(self)@ == old(self)@ + value,
            old(self)@ + value > u64::MAX ==> r == Err::<(), StoreError>(StoreError::SizeOverflow)
                && final(self)@ == old(self)@,
    {
        if self.sum > u64::MAX - value {
            return Err(StoreError::SizeOverflow);
        }
        self.sum = self.sum + value;
        Ok(())
    }

    /// The running total.
    pub fn get_cursor(&self) -> (r: u64)
        ensures
            r == self@,
    {
        self.sum
    }

    /// Recomputes the total from the log's complete records and returns the compacted log,
    /// a single record of the total; refuses a total that `u64` cannot hold.
    pub fn sum(&mut self, log: &[u8]) -> (r: Result<Vec<u8>, StoreError>)
        ensures
            log_total(log@) <= u64::MAX ==> (r matches Ok(c) && final(self)@ == log_total(log@)
                && c@ == be_bytes(log_total(log@) as u64)),
            log_total(log@) > u64::MAX ==> r == Err::<Vec<u8>, StoreError>(
                StoreError::SizeOverflow,
            ) && final(self)@ == old(self)@,
    {
        let len = log.len();
        let n = len / 8;
        let mut total: u64 = 0;
        let mut k: usize = 0;
        while k < n
            invariant
                n == log@.len() / 8,
                len == log@.len(),
                k <= n,
                total == records_total(log@, k as nat),
            decreases n - k,
        {
            assert(8 * k + 8 <= len) by (nonlinear_arith)
                requires
                    k < n,
                    n == len / 8,
            {
            }
            let v = be_decode(log, 8 * k);
            if total > u64::MAX - v {
                proof {
                    lemma_records_total_monotone(log@, (k + 1) as nat, n as nat);
                }
                return Err(StoreError::SizeOverflow);
            }
            total = total + v;
            k += 1;
        }
        self.sum = total;
        Ok(be_encode(total))
    }
}

proof fn lemma_records_total_monotone(log: Seq<u8>, j: nat, k: nat)
    requires
        j <= k,
    ensures
        records_total(log, j) <= records_total(log, k),
    decreases k - j,
{
    if j < k {
        lemma_records_total_monotone(log, j, (k - 1) as nat);
    }
}

/// Recomputing a compacted log changes nothing: the total and the content stay the same.
pub proof fn lemma_recompute_idempotent(log: Seq<u8>)
    requires
        log_total(log) <= u64::MAX,
    ensures
        log_total(be_bytes(log_total(log) as u64)) == log_total(log),
        be_bytes(log_total(be_bytes(log_total(log) as u64)) as u64) == be_bytes(
            log_total(log) as u64,
        ),
{
    lemma_compacted_total(log_total(log) as u64);
}

} // verus!
