//! The twelve-byte file header: magic `KVS1`, then the compaction threshold.
use vstd::prelude::*;
use crate::bytes::{le_value, u64_le, u64_to_le, u64_from_le, lemma_le_bytes_len};

verus! {

/// The magic as a byte sequence.
pub open spec fn magic() -> Seq<u8> {
    seq![0x4bu8, 0x56u8, 0x53u8, 0x31u8]
}

/// The header of a file whose threshold is `t`.
pub open spec fn header_bytes(t: u64) -> Seq<u8> {
    magic() + u64_le(t)
}

/// Why the start of a non-empty file is not a header.
#[derive(Clone, Copy, Debug, PartialEq, Eq, Structural)]
pub enum HeaderError {
    /// The file is shorter than a header.
    MissingHeader,
    /// The first four bytes are not the magic.
    UnsupportedFormat,
}

/// What reading the header of the file contents `data` gives.
pub open spec fn header_result(data: Seq<u8>) -> Result<u64, HeaderError> {
    if data.len() < 12 {
        Err(HeaderError::MissingHeader)
    } else if data.subrange(0, 4) != magic() {
        Err(HeaderError::UnsupportedFormat)
    } else {
        Ok(le_value(data.subrange(4, 12)) as u64)
    }
}

/// The header bytes for threshold `t`.
pub fn encode_header(t: u64) -> (r: Vec<u8>)
    ensures
        r@ == header_bytes(t),
        r@.len() == 12,
{
    let mut out: Vec<u8> = Vec::new();
    out.push(0x4b);
    out.push(0x56);
    out.push(0x53);
    out.push(0x31);
    let mut word = u64_to_le(t);
    let ghost m = out@;
    out.append(&mut word);
    proof {
        assert(m =~= magic());
        lemma_le_bytes_len(t as nat, 8);
    }
    out
}

/// Reads the threshold from the header at the start of `data`, or says why
/// there is none.
pub fn read_header(data: &[u8]) -> (r: Result<u64, HeaderError>)
    ensures
        r == header_result(data@),
{
    if data.len() < 12 {
        return Err(HeaderError::MissingHeader);
    }
    let ok = data[0] == 0x4b && data[1] == 0x56 && data[2] == 0x53 && data[3] == 0x31;
    proof {
        if ok {
            assert(data@.subrange(0, 4) =~= magic());
        } else {
            assert(data@.subrange(0, 4) != magic()) by {
                if data@.subrange(0, 4) == magic() {
                    assert(data@[0] == data@.subrange(0, 4)[0]);
                    assert(data@[1] == data@.subrange(0, 4)[1]);
                    assert(data@[2] == data@.subrange(0, 4)[2]);
                    assert(data@[3] == data@.subrange(0, 4)[3]);
                }
            }
        }
    }
    if !ok {
        return Err(HeaderError::UnsupportedFormat);
    }
    Ok(u64_from_le(data, 4))
}

/// A header reads back as the threshold it was written with.
pub proof fn lemma_header_round_trip(t: u64)
    ensures
        header_result(header_bytes(t)) == Ok::<u64, HeaderError>(t),
{
    let h = header_bytes(t);
    lemma_le_bytes_len(t as nat, 8);
    assert(h.subrange(0, 4) =~= magic());
    assert(h.subrange(4, 12) =~= u64_le(t));
    crate::bytes::lemma_pow256_8();
    crate::bytes::lemma_le_round_trip(t as nat, 8);
}

} // verus!
