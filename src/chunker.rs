use vstd::prelude::*;

use crate::chunk::Chunk;
use crate::file::{chunk_count, chunk_data, chunks_bytes, data_chunks, File, FileError, CHUNK_BYTES};

verus! {

/// `chunks` are the full chunks of `data` and `pending` is the rest, shorter
/// than a chunk.
pub open spec fn chunked(chunks: Seq<Chunk>, pending: Seq<u8>, data: Seq<u8>) -> bool {
    let k = chunks.len();
    &&& pending.len() < CHUNK_BYTES
    &&& data.len() == k * CHUNK_BYTES + pending.len()
    &&& forall|i: int|
        0 <= i < k ==> #[trigger] chunks[i].leaf_idx == i && chunks[i].data@ == data.subrange(
            i * CHUNK_BYTES,
            (i + 1) * CHUNK_BYTES,
        )
    &&& pending == data.subrange(k * CHUNK_BYTES, data.len() as int)
}

/// Cuts bytes that arrive in pieces of any size into the chunks of all of them
/// taken together, so that the chunk boundaries depend on the content alone.
pub struct Chunker {
    chunks: Vec<Chunk>,
    pending: Vec<u8>,
    data: Ghost<Seq<u8>>,
}

impl View for Chunker {
    type V = Seq<u8>;

    /// The bytes received so far.
    closed spec fn view(&self) -> Seq<u8> {
        self.data@
    }
}

impl Chunker {
    #[verifier::type_invariant]
    spec fn inv(&self) -> bool {
        &&& self.data@.len() <= usize::MAX
        &&& chunked(self.chunks@, self.pending@, self.data@)
    }

    /// A chunker that has received nothing.
    pub fn new() -> (r: Self)
        ensures
            r@ == Seq::<u8>::empty(),
    {
        let chunks: Vec<Chunk> = Vec::new();
        let pending: Vec<u8> = Vec::new();
        assert(pending@ =~= Seq::<u8>::empty().subrange(0, 0));
        Chunker { chunks, pending, data: Ghost(Seq::empty()) }
    }

    /// The number of bytes received so far.
    pub fn len(&self) -> (r: usize)
        ensures
            r == self@.len(),
    {
        proof {
            use_type_invariant(self);
        }
        self.chunks.len() * CHUNK_BYTES + self.pending.len()
    }

    /// Takes the next bytes of the input.
    pub fn push(&mut self, bytes: &[u8])
        requires
            old(self)@.len() + bytes@.len() <= usize::MAX,
        ensures
            final(self)@ == old(self)@ + bytes@,
    {
        proof {
            use_type_invariant(&*self);
        }
        let mut taken = Chunker::new();
        std::mem::swap(self, &mut taken);
        proof {
            use_type_invariant(&taken);
        }
        let Chunker { mut chunks, mut pending, data } = taken;
        let ghost start = data@;
        let ghost mut seen = data@;
        let mut i: usize = 0;
        while i < bytes.len()
            invariant
                i <= bytes@.len(),
                start.len() + bytes@.len() <= usize::MAX,
                seen == start + bytes@.subrange(0, i as int),
                chunked(chunks@, pending@, seen),
            decreases bytes@.len() - i,
        {
            let ghost before = seen;
            let ghost k = chunks@.len();
            proof {
                seen = seen.push(bytes@[i as int]);
                assert(bytes@.subrange(0, i + 1) =~= bytes@.subrange(0, i as int).push(bytes@[i as int]));
                assert(seen =~= start + bytes@.subrange(0, i + 1));
                assert forall|j: int| 0 <= j < k implies #[trigger] chunks@[j].leaf_idx == j
                    && chunks@[j].data@ == seen.subrange(j * CHUNK_BYTES, (j + 1) * CHUNK_BYTES) by {
                    assert((j + 1) * CHUNK_BYTES <= k * CHUNK_BYTES) by (nonlinear_arith)
                        requires
                            j + 1 <= k,
                    ;
                    assert(seen.subrange(j * CHUNK_BYTES, (j + 1) * CHUNK_BYTES) =~= before.subrange(
                        j * CHUNK_BYTES,
                        (j + 1) * CHUNK_BYTES,
                    ));
                }
            }
            pending.push(bytes[i]);
            proof {
                assert(pending@ =~= seen.subrange(k * CHUNK_BYTES, seen.len() as int));
            }
            if pending.len() == CHUNK_BYTES {
                let mut full: Vec<u8> = Vec::new();
                std::mem::swap(&mut full, &mut pending);
                let idx = chunks.len();
                chunks.push(Chunk { data: full, leaf_idx: idx });
                proof {
                    assert(pending@ =~= seen.subrange((k + 1) * CHUNK_BYTES, seen.len() as int));
                }
            }
            i = i + 1;
        }
        proof {
            assert(bytes@.subrange(0, bytes@.len() as int) =~= bytes@);
        }
        *self = Chunker { chunks, pending, data: Ghost(seen) };
    }

    /// The file of all the bytes received. Fails with `File` where there were none.
    pub fn finish(self) -> (r: Result<File, FileError>)
        ensures
            self@.len() == 0 ==> r matches Err(FileError::File),
            self@.len() > 0 ==> (r matches Ok(f) && f.spec_chunks() == data_chunks(self@)),
    {
        proof {
            use_type_invariant(&self);
        }
        let Chunker { mut chunks, pending, data } = self;
        let ghost k = chunks@.len();
        let ghost r = pending@.len();
        let ghost full = chunks@;
        let ghost rest = pending@;
        if pending.len() > 0 {
            let idx = chunks.len();
            chunks.push(Chunk { data: pending, leaf_idx: idx });
        }
        proof {
            let len = data@.len();
            assert((k * CHUNK_BYTES + r + CHUNK_BYTES - 1) / (CHUNK_BYTES as int) == k + (r + CHUNK_BYTES
                - 1) / (CHUNK_BYTES as int)) by (nonlinear_arith)
                requires
                    r < CHUNK_BYTES,
                    CHUNK_BYTES == 1024,
            ;
            assert(chunk_count(len) == chunks@.len());
            assert forall|i: int| 0 <= i < chunks@.len() implies #[trigger] chunks_bytes(chunks@)[i]
                == chunk_data(data@, i) by {
                assert(chunks_bytes(chunks@)[i] == chunks@[i].data@);
                if i < k {
                    assert(chunks@[i] == full[i]);
                    assert(full[i].leaf_idx == i);
                    assert((i + 1) * CHUNK_BYTES <= k * CHUNK_BYTES) by (nonlinear_arith)
                        requires
                            i + 1 <= k,
                    ;
                    assert(chunk_data(data@, i) == data@.subrange(i * CHUNK_BYTES, (i + 1) * CHUNK_BYTES));
                } else {
                    assert(chunks@[i].data@ == rest);
                    assert((i + 1) * CHUNK_BYTES == k * CHUNK_BYTES + CHUNK_BYTES) by (nonlinear_arith)
                        requires
                            i == k,
                    ;
                    assert(chunk_data(data@, i) == data@.subrange(k * CHUNK_BYTES, data@.len() as int));
                }
            }
            assert(chunks_bytes(chunks@) =~= data_chunks(data@));
            assert(chunks@.len() <= usize::MAX / 4);
            assert forall|i: int| 0 <= i < chunks@.len() implies #[trigger] chunks@[i].leaf_idx == i
                && 1 <= chunks@[i].data@.len() <= CHUNK_BYTES by {
                if i < k {
                    assert(chunks_bytes(chunks@)[i] == chunks@[i].data@);
                }
            }
        }
        File::from_chunks(chunks)
    }
}

} // verus!
