//! Little-endian byte helpers shared by the record codec.

use vstd::bytes::*;
use vstd::prelude::*;
use vstd::slice::{slice_subrange, slice_to_vec};

verus! {

/// The eight bytes that stand for a timestamp on the wire: the two's
/// complement bit pattern of `ts`, least significant byte first.
pub open spec fn timestamp_bytes(ts: i64) -> Seq<u8> {
    spec_u64_to_le_bytes(ts as u64)
}

/// The timestamp that eight wire bytes stand for.
pub open spec fn timestamp_of_bytes(bytes: Seq<u8>) -> i64 {
    spec_u64_from_le_bytes(bytes) as i64
}

/// A signed value read as a 64-bit pattern and then as signed again is itself.
pub proof fn lemma_unsigned_roundtrip(x: i64)
    ensures
        ((x as u64) as i64) == x,
{
    assert(((x as u64) as i64) == x) by (bit_vector);
}

/// The eight timestamp bytes of a record for a time given in seconds
/// since the Unix epoch.
pub fn system_time_to_bytes(sys_time: i64) -> (out: [u8; 8])
    ensures
        out@ == timestamp_bytes(sys_time),
{
    let bytes = u64_to_le_bytes(#[verifier::truncate] (sys_time as u64));
    let mut out: [u8; 8] = [0u8; 8];
    let mut i: usize = 0;
    while i < 8
        invariant
            i <= 8,
            bytes@.len() == 8,
            forall|j: int| 0 <= j < i ==> out@[j] == bytes@[j],
        decreases 8 - i,
    {
        out[i] = bytes[i];
        i += 1;
    }
    assert(out@ =~= bytes@);
    out
}

/// Appends every byte of `src` to `out`.
pub fn append_bytes(out: &mut Vec<u8>, src: &[u8])
    ensures
        final(out)@ == old(out)@ + src@,
{
    out.extend_from_slice(src);
    assert(out@ =~= old(out)@ + src@);
}

/// Whether two byte strings are equal, byte for byte.
pub fn bytes_equal(a: &[u8], b: &[u8]) -> (same: bool)
    ensures
        same == (a@ == b@),
{
    if a.len() != b.len() {
        return false;
    }
    let mut i: usize = 0;
    while i < a.len()
        invariant
            a@.len() == b@.len(),
            i <= a@.len(),
            forall|k: int| 0 <= k < i ==> a@[k] == b@[k],
        decreases a.len() - i,
    {
        if a[i] != b[i] {
            return false;
        }
        i += 1;
    }
    assert(a@ =~= b@);
    true
}

/// A copy of the bytes of `src` from `from` up to `to`.
pub fn copy_range(src: &[u8], from: usize, to: usize) -> (out: Vec<u8>)
    requires
        from <= to <= src@.len(),
    ensures
        out@ == src@.subrange(from as int, to as int),
{
    slice_to_vec(slice_subrange(src, from, to))
}

} // verus!
