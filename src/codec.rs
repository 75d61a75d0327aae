//! Records and their encoding. The bytes are produced and read by wincode, in
//! its default configuration, which writes bincode's layout.
use vstd::prelude::*;
use crate::bytes::{le_bytes, lemma_le_bytes_len, lemma_le_round_trip, lemma_pow256_8};

verus! {

/// Longest key or value that wincode's default configuration writes or reads:
/// its preallocation limit of 4 MiB.
pub const MAX_FIELD_LEN: u64 = 4194304;

/// One entry of the log: a timestamp, a key, and a value or, for a delete,
/// none.
pub struct DataFileEntry {
    pub tstamp: i64,
    pub key: Vec<u8>,
    pub value: Option<Vec<u8>>,
}

/// A record as plain values: timestamp, key, value.
pub type RecordView = (i64, Seq<u8>, Option<Seq<u8>>);

pub open spec fn opt_view(v: Option<Vec<u8>>) -> Option<Seq<u8>> {
    match v {
        Some(b) => Some(b@),
        None => None,
    }
}

impl View for DataFileEntry {
    type V = RecordView;

    open spec fn view(&self) -> RecordView {
        (self.tstamp, self.key@, opt_view(self.value))
    }
}

/// The two's-complement bits of `t` as a number.
pub open spec fn i64_bits(t: i64) -> nat {
    if t >= 0 {
        t as nat
    } else {
        (t + 0x1_0000_0000_0000_0000) as nat
    }
}

/// A byte string as wincode writes it: its length in eight bytes, then the
/// bytes.
pub open spec fn field_bytes(b: Seq<u8>) -> Seq<u8> {
    le_bytes(b.len(), 8) + b
}

/// The encoding of a record: the timestamp in eight bytes, the key, then
/// tag 0 for no value or tag 1 and the value.
pub open spec fn record_bytes(r: RecordView) -> Seq<u8> {
    le_bytes(i64_bits(r.0), 8) + field_bytes(r.1) + match r.2 {
        None => seq![0u8],
        Some(v) => seq![1u8] + field_bytes(v),
    }
}

/// Key and value are within the limit that the encoding accepts.
pub open spec fn record_fits(r: RecordView) -> bool {
    r.1.len() <= MAX_FIELD_LEN && match r.2 {
        None => true,
        Some(v) => v.len() <= MAX_FIELD_LEN,
    }
}

/// `b` starts with the encoding of `r`.
pub open spec fn encodes_prefix(b: Seq<u8>, r: RecordView) -> bool {
    record_fits(r) && record_bytes(r).len() <= b.len() && b.subrange(0, record_bytes(r).len() as int)
        == record_bytes(r)
}

/// The record that the bytes `b` decode to, if any.
pub open spec fn decoded(b: Seq<u8>) -> Option<RecordView> {
    if exists|r: RecordView| encodes_prefix(b, r) {
        Some(choose|r: RecordView| encodes_prefix(b, r))
    } else {
        None
    }
}

/// Why a record could not be encoded or decoded.
#[derive(Clone, Copy, Debug, PartialEq, Eq, Structural)]
pub enum CodecError {
    /// The key or the value is longer than the encoding takes.
    TooLarge,
    /// The bytes do not start with a record.
    Invalid,
}

#[verifier::external_type_specification]
#[verifier::external_body]
pub struct ExWriteError(wincode::WriteError);

#[verifier::external_type_specification]
#[verifier::external_body]
pub struct ExReadError(wincode::ReadError);

/// Relies on `wincode::serialize` of the tuple `(i64, Vec<u8>, Option<Vec<u8>>)`
/// in the default configuration: fields in order, integers as fixed-width
/// little-endian, lengths as `u64`, `Option` as a tag byte 0 or 1; a `Vec`
/// longer than the 4 MiB preallocation limit is refused.
#[verifier::external_body]
fn wincode_serialize(r: &DataFileEntry) -> (res: Result<Vec<u8>, wincode::WriteError>)
    ensures
        res is Ok <==> record_fits(r@),
        res matches Ok(b) ==> b@ == record_bytes(r@),
{
    wincode::serialize(&(r.tstamp, r.key.clone(), r.value.clone()))
}

/// Relies on `wincode::deserialize` of the same tuple: it reads one encoding
/// from the front of the bytes, leaves any bytes after it unread, and fails
/// where the bytes start with no encoding of a record within the limit.
#[verifier::external_body]
fn wincode_deserialize(b: &[u8]) -> (res: Result<DataFileEntry, wincode::ReadError>)
    ensures
        res matches Ok(r) ==> encodes_prefix(b@, r@),
        res is Err ==> !exists|r: RecordView| encodes_prefix(b@, r),
{
    match wincode::deserialize::<(i64, Vec<u8>, Option<Vec<u8>>)>(b) {
        Ok((tstamp, key, value)) => Ok(DataFileEntry { tstamp, key, value }),
        Err(e) => Err(e),
    }
}

/// The encoded body of a record.
pub fn encode_record(r: &DataFileEntry) -> (res: Result<Vec<u8>, CodecError>)
    ensures
        res is Ok <==> record_fits(r@),
        res matches Ok(b) ==> b@ == record_bytes(r@),
        res matches Err(e) ==> e == CodecError::TooLarge,
{
    match wincode_serialize(r) {
        Ok(b) => Ok(b),
        Err(_) => Err(CodecError::TooLarge),
    }
}

/// The record at the front of `b`.
pub fn decode_record(b: &[u8]) -> (res: Result<DataFileEntry, CodecError>)
    ensures
        match res {
            Ok(r) => decoded(b@) == Some(r@),
            Err(e) => decoded(b@) is None && e == CodecError::Invalid,
        },
{
    match wincode_deserialize(b) {
        Ok(r) => {
            proof {
                lemma_decoded_unique(b@, r@);
            }
            Ok(r)
        },
        Err(_) => Err(CodecError::Invalid),
    }
}

proof fn lemma_i64_bits(t: i64)
    ensures
        i64_bits(t) < 0x1_0000_0000_0000_0000,
        t >= 0 ==> i64_bits(t) < 0x8000_0000_0000_0000,
        t < 0 ==> i64_bits(t) >= 0x8000_0000_0000_0000,
{
}

/// Equal eight-byte words of numbers below 2^64 hold equal numbers.
proof fn lemma_word_eq(a: nat, b: nat)
    requires
        a < 0x1_0000_0000_0000_0000,
        b < 0x1_0000_0000_0000_0000,
        le_bytes(a, 8) == le_bytes(b, 8),
    ensures
        a == b,
{
    lemma_pow256_8();
    lemma_le_round_trip(a, 8);
    lemma_le_round_trip(b, 8);
}

/// Where a record's encoding starts a sequence, no other record's does:
/// the encoding is self-delimiting.
pub proof fn lemma_prefix_unique(b: Seq<u8>, r: RecordView, s: RecordView)
    requires
        encodes_prefix(b, r),
        encodes_prefix(b, s),
    ensures
        r == s,
{
    let br = record_bytes(r);
    let bs = record_bytes(s);
    lemma_le_bytes_len(i64_bits(r.0), 8);
    lemma_le_bytes_len(i64_bits(s.0), 8);
    lemma_le_bytes_len(r.1.len(), 8);
    lemma_le_bytes_len(s.1.len(), 8);
    assert(br.subrange(0, 8) =~= le_bytes(i64_bits(r.0), 8));
    assert(bs.subrange(0, 8) =~= le_bytes(i64_bits(s.0), 8));
    assert(br.subrange(0, 8) =~= b.subrange(0, 8));
    assert(bs.subrange(0, 8) =~= b.subrange(0, 8));
    lemma_i64_bits(r.0);
    lemma_i64_bits(s.0);
    lemma_word_eq(i64_bits(r.0), i64_bits(s.0));
    assert(r.0 == s.0);
    assert(br.subrange(8, 16) =~= le_bytes(r.1.len(), 8));
    assert(bs.subrange(8, 16) =~= le_bytes(s.1.len(), 8));
    assert(br.subrange(8, 16) =~= b.subrange(8, 16));
    assert(bs.subrange(8, 16) =~= b.subrange(8, 16));
    lemma_word_eq(r.1.len(), s.1.len());
    let kl = r.1.len() as int;
    assert(br.subrange(16, 16 + kl) =~= r.1);
    assert(bs.subrange(16, 16 + kl) =~= s.1);
    assert(br.subrange(16, 16 + kl) =~= b.subrange(16, 16 + kl));
    assert(bs.subrange(16, 16 + kl) =~= b.subrange(16, 16 + kl));
    assert(br[16 + kl] == b[16 + kl]);
    assert(bs[16 + kl] == b[16 + kl]);
    match (r.2, s.2) {
        (Some(x), Some(y)) => {
            let o = 17 + kl;
            lemma_le_bytes_len(x.len(), 8);
            lemma_le_bytes_len(y.len(), 8);
            assert(br.subrange(o, o + 8) =~= le_bytes(x.len(), 8));
            assert(bs.subrange(o, o + 8) =~= le_bytes(y.len(), 8));
            assert(br.subrange(o, o + 8) =~= b.subrange(o, o + 8));
            assert(bs.subrange(o, o + 8) =~= b.subrange(o, o + 8));
            lemma_word_eq(x.len(), y.len());
            let vl = x.len() as int;
            assert(br.subrange(o + 8, o + 8 + vl) =~= x);
            assert(bs.subrange(o + 8, o + 8 + vl) =~= y);
            assert(br.subrange(o + 8, o + 8 + vl) =~= b.subrange(o + 8, o + 8 + vl));
            assert(bs.subrange(o + 8, o + 8 + vl) =~= b.subrange(o + 8, o + 8 + vl));
        },
        (None, None) => {},
        (Some(x), None) => {
            assert(br[16 + kl] == 1u8);
            assert(bs[16 + kl] == 0u8);
        },
        (None, Some(y)) => {
            assert(br[16 + kl] == 0u8);
            assert(bs[16 + kl] == 1u8);
        },
    }
}

proof fn lemma_decoded_unique(b: Seq<u8>, r: RecordView)
    requires
        encodes_prefix(b, r),
    ensures
        decoded(b) == Some(r),
{
    let c = choose|s: RecordView| encodes_prefix(b, s);
    lemma_prefix_unique(b, r, c);
}

/// Decoding the encoding of a record gives that record back.
pub proof fn lemma_round_trip(r: RecordView)
    requires
        record_fits(r),
    ensures
        decoded(record_bytes(r)) == Some(r),
{
    let b = record_bytes(r);
    assert(b.subrange(0, b.len() as int) =~= b);
    lemma_decoded_unique(b, r);
}

} // verus!
