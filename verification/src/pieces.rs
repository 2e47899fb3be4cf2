//! Cutting the flat buffer of piece hashes into records of 20 bytes.

use vstd::prelude::*;
use vstd::slice::{slice_subrange, slice_to_vec};

verus! {

/// The length of one piece hash, in bytes.
pub const HASH_LENGTH: usize = 20;

/// Why a buffer of piece hashes cannot be cut into records.
#[derive(Debug, Clone, Copy, PartialEq, Eq, Structural)]
pub enum SegmentError {
    /// The buffer's length is not a multiple of the hash length.
    MisalignedLength,
}

/// The records of a buffer: the `i`-th holds the bytes from `20 * i` up to
/// `20 * i + 20`.
pub open spec fn segments(buffer: Seq<u8>) -> Seq<Seq<u8>> {
    Seq::new((buffer.len() / 20) as nat, |i: int| buffer.subrange(20 * i, 20 * i + 20))
}

/// The contents of each record of a list of piece hashes.
pub open spec fn record_views(records: Seq<Vec<u8>>) -> Seq<Seq<u8>> {
    Seq::new(records.len(), |i: int| records[i]@)
}

/// Cuts `buffer` into records of 20 bytes, in the order of their offsets.
/// A buffer whose length is no multiple of 20 is refused.
pub fn segment_pieces(buffer: &[u8]) -> (r: Result<Vec<Vec<u8>>, SegmentError>)
    ensures
        match r {
            Ok(records) => buffer@.len() % 20 == 0 && record_views(records@) == segments(
                buffer@,
            ),
            Err(e) => buffer@.len() % 20 != 0 && e == SegmentError::MisalignedLength,
        },
{
    if buffer.len() % HASH_LENGTH != 0 {
        return Err(SegmentError::MisalignedLength);
    }
    let count: usize = buffer.len() / HASH_LENGTH;
    let mut records: Vec<Vec<u8>> = Vec::new();
    let mut i: usize = 0;
    let mut start: usize = 0;
    while i < count
        invariant
            i <= count,
            buffer@.len() <= usize::MAX,
            start == 20 * i,
            count * 20 == buffer@.len(),
            records@.len() == i,
            forall|k: int|
                0 <= k < i ==> (#[trigger] records@[k])@ == buffer@.subrange(20 * k, 20 * k + 20),
        decreases count - i,
    {
        let record: Vec<u8> = slice_to_vec(slice_subrange(buffer, start, start + HASH_LENGTH));
        records.push(record);
        start = start + HASH_LENGTH;
        i = i + 1;
    }
    assert(buffer@.len() / 20 == count);
    assert(record_views(records@) =~= segments(buffer@));
    Ok(records)
}

} // verus!
