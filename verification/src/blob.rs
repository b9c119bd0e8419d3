//! The byte-range arithmetic of the queue store's blob reads: which bytes
//! of a stored value a requested range selects. The durable store itself
//! is an outside collaborator; this is the part of a ranged read that is
//! pure computation.

use vstd::prelude::*;
use vstd::slice::{slice_subrange, slice_to_vec};

verus! {

/// The bytes a range selects from a stored value: the full value for the
/// unbounded `0..usize::MAX` range, otherwise the range clamped to the
/// value's length, empty when it starts past the end.
pub open spec fn range_read(s: Seq<u8>, start: int, end: int) -> Seq<u8> {
    if start == 0 && end == usize::MAX {
        s
    } else {
        let hi = if end < s.len() {
            end
        } else {
            s.len() as int
        };
        if start <= hi {
            s.subrange(start, hi)
        } else {
            Seq::empty()
        }
    }
}

/// Selects the requested byte range from a stored value.
pub fn blob_range(bytes: &[u8], start: usize, end: usize) -> (r: Vec<u8>)
    ensures
        r@ == range_read(bytes@, start as int, end as int),
{
    if start == 0 && end == usize::MAX {
        slice_to_vec(bytes)
    } else {
        let len = bytes.len();
        let hi = if end < len {
            end
        } else {
            len
        };
        if start <= hi {
            slice_to_vec(slice_subrange(bytes, start, hi))
        } else {
            Vec::new()
        }
    }
}

} // verus!
