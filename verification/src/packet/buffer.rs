//! The contiguous byte storage behind packet batches.
use core::ops::Range;
use vstd::prelude::*;

verus! {

/// A contiguous span of memory that backs packet batches.
pub struct Buffer {
    /// The buffer's data.
    pub data: Vec<u8>,
}

impl Buffer {
    /// Make a new buffer of `size` zero bytes.
    pub fn new(size: usize) -> (r: Buffer)
        ensures
            r.data@ == Seq::new(size as nat, |i: int| 0u8),
    {
        let mut data: Vec<u8> = Vec::with_capacity(size);
        let mut i: usize = 0;
        while i < size
            invariant
                i <= size,
                data@ == Seq::new(i as nat, |j: int| 0u8),
            decreases size - i,
        {
            data.push(0u8);
            i = i + 1;
        }
        Buffer { data }
    }

    /// Make a buffer holding a copy of `data`.
    pub fn from_slice(data: &[u8]) -> (r: Buffer)
        ensures
            r.data@ == data@,
    {
        Buffer { data: vstd::slice::slice_to_vec(data) }
    }

    /// The bytes at positions `index.start .. index.end`.
    pub fn index(&self, index: Range<usize>) -> (r: &[u8])
        requires
            index.start <= index.end <= self.data@.len(),
        ensures
            r@ == self.data@.subrange(index.start as int, index.end as int),
    {
        let s = self.data.as_slice();
        &s[index]
    }
}

} // verus!
