use vstd::prelude::*;

use crate::hasher::AsBytes;

verus! {

/// A piece of a file: its bytes and its position among the file's chunks.
#[derive(Clone, Debug, PartialEq, Eq)]
pub struct Chunk {
    pub data: Vec<u8>,
    pub leaf_idx: usize,
}

impl Chunk {
    pub fn len(&self) -> (r: usize)
        ensures
            r == self.data@.len(),
    {
        self.data.len()
    }

    #[must_use]
    pub fn is_empty(&self) -> (r: bool)
        ensures
            r == (self.data@.len() == 0),
    {
        self.len() == 0
    }
}

impl AsBytes for Chunk {
    open spec fn bytes_view(&self) -> Seq<u8> {
        self.data@
    }

    fn as_bytes(&self) -> (r: &[u8]) {
        self.data.as_slice()
    }
}

} // verus!

verus! {

/// A copy of `data[start..end]`.
pub fn copy_range(data: &[u8], start: usize, end: usize) -> (r: Vec<u8>)
    requires
        start <= end <= data@.len(),
    ensures
        r@ == data@.subrange(start as int, end as int),
{
    let mut out: Vec<u8> = Vec::new();
    let mut i: usize = start;
    while i < end
        invariant
            start <= i <= end,
            end <= data@.len(),
            out@ == data@.subrange(start as int, i as int),
        decreases end - i,
    {
        out.push(data[i]);
        i = i + 1;
        assert(out@ =~= data@.subrange(start as int, i as int));
    }
    out
}

impl Chunk {
    /// A chunk with the same bytes and index.
    pub fn duplicate(&self) -> (r: Chunk)
        ensures
            r.data@ == self.data@,
            r.leaf_idx == self.leaf_idx,
    {
        let data = copy_range(self.data.as_slice(), 0, self.data.len());
        assert(self.data@.subrange(0, self.data@.len() as int) =~= self.data@);
        Chunk { data, leaf_idx: self.leaf_idx }
    }
}

} // verus!
