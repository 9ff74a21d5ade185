//! The chunk partitioner: contiguous byte ranges covering the whole buffer,
//! each boundary before the last snapped back onto a newline so that no
//! record is split across two ranges.

use crate::bytes::{find_last, NL};
use vstd::prelude::*;

verus! {

/// Splits `[0, data.len())` into at most `parts` contiguous ranges: the
/// ranges touch, the first starts at zero, the last ends at the buffer end,
/// and every boundary but the last falls immediately after a newline.
pub fn partition(data: &[u8], parts: usize) -> (r: Vec<(usize, usize)>)
    requires
        parts >= 1,
    ensures
        1 <= r@.len() <= parts,
        (#[trigger] r@[0]).0 == 0,
        r@[r@.len() - 1].1 == data@.len(),
        forall|i: int| 0 <= i < r@.len() - 1 ==> (#[trigger] r@[i]).1 == r@[i + 1].0,
        forall|i: int| 0 <= i < r@.len() ==> (#[trigger] r@[i]).0 <= r@[i].1 <= data@.len(),
        forall|i: int|
            0 <= i < r@.len() - 1 ==> (#[trigger] r@[i]).1 >= 1 && data@[r@[i].1 - 1] == NL,
        data@.len() > 0 ==> forall|i: int| 0 <= i < r@.len() ==> (#[trigger] r@[i]).0 < r@[i].1,
{
    let len = data.len();
    let mut ranges: Vec<(usize, usize)> = Vec::new();
    let cand = len / parts;
    let chunk: usize = if cand == 0 {
        1
    } else {
        cand
    };
    let mut start: usize = 0;
    let mut stop = false;
    while !stop && ranges.len() + 1 < parts && len - start > chunk
        invariant
            len == data@.len(),
            chunk >= 1,
            start <= len,
            len > 0 ==> start < len,
            len == 0 ==> start == 0,
            ranges@.len() + 1 <= parts,
            ranges@.len() == 0 ==> start == 0,
            ranges@.len() > 0 ==> (#[trigger] ranges@[0]).0 == 0 && ranges@[ranges@.len()
                - 1].1 == start,
            forall|i: int|
                0 <= i < ranges@.len() - 1 ==> (#[trigger] ranges@[i]).1 == ranges@[i + 1].0,
            forall|i: int|
                0 <= i < ranges@.len() ==> (#[trigger] ranges@[i]).0 < ranges@[i].1 <= len,
            forall|i: int|
                0 <= i < ranges@.len() ==> (#[trigger] ranges@[i]).1 >= 1 && data@[ranges@[i].1
                    - 1] == NL,
        decreases len - start + (if stop { 0int } else { 1int }),
    {
        let window = vstd::slice::slice_subrange(data, start, start + chunk);
        match find_last(window, NL) {
            Some(j) => {
                let cut = start + j + 1;
                proof {
                    assert(data@[cut - 1] == window@[j as int]);
                }
                ranges.push((start, cut));
                start = cut;
            },
            None => {
                stop = true;
            },
        }
    }
    ranges.push((start, len));
    proof {
        assert(ranges@[ranges@.len() - 1] == (start, len));
        assert forall|i: int| 0 <= i < ranges@.len() - 1 implies (#[trigger] ranges@[i]).1
            == ranges@[i + 1].0 by {
            if i < ranges@.len() - 2 {
            } else {
                assert(ranges@[i].1 == start);
            }
        }
    }
    ranges
}

} // verus!
