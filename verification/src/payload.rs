//! Test-traffic payloads.

use vstd::prelude::*;

verus! {

/// Builds a payload of `size` bytes whose values cycle through
/// `0, 1, …, 254`.
pub fn create_payload(size: usize) -> (r: Vec<u8>)
    ensures
        r@.len() == size,
        forall|i: int| 0 <= i < size ==> r@[i] == (i % 255) as u8,
{
    let mut buf: Vec<u8> = Vec::with_capacity(size);
    let max: usize = 255;
    let mut i: usize = 0;
    while i < size
        invariant
            0 <= i <= size,
            max == 255,
            buf@.len() == i,
            forall|j: int| 0 <= j < i ==> buf@[j] == (j % 255) as u8,
        decreases size - i,
    {
        buf.push((i % max) as u8);
        i = i + 1;
    }
    buf
}

} // verus!
