use vstd::prelude::*;

use crate::chunk::Chunk;
use crate::file::{File, FileError};
use crate::hasher::AsBytes;
use crate::hex::{encode_hex, hex_of};
use crate::merkle::{proof_spec, MerkleError};
use crate::sha256::Sha256Hash;

verus! {

/// An error of the repository.
#[derive(Debug, PartialEq, Eq, Structural)]
pub enum RepoError {
    /// Nothing is stored under the requested key or index.
    DoesntExist,
    /// A file failed.
    File(FileError),
}

impl From<FileError> for RepoError {
    fn from(e: FileError) -> (r: RepoError) {
        match e {
            FileError::Merkle(MerkleError::InvalidIdx) => RepoError::DoesntExist,
            _ => RepoError::File(e),
        }
    }
}

impl vstd::std_specs::convert::FromSpecImpl<FileError> for RepoError {
    open spec fn obeys_from_spec() -> bool {
        true
    }

    open spec fn from_spec(e: FileError) -> RepoError {
        match e {
            FileError::Merkle(MerkleError::InvalidIdx) => RepoError::DoesntExist,
            _ => RepoError::File(e),
        }
    }
}

/// A stored file as listed: its key and its number of chunks.
pub struct FileDescription {
    pub hash: String,
    pub pieces: usize,
}

/// One chunk of a stored file with its proof.
#[derive(Clone, Debug)]
pub struct Piece {
    pub content: Chunk,
    pub proof: Vec<Sha256Hash>,
}

/// The key of a file: the lowercase hex form of its root hash.
pub open spec fn key_of(f: File) -> Seq<char> {
    hex_of(f.spec_tree().last()@)
}

/// The catalog that a sequence of entries stands for; a later entry wins.
pub open spec fn entries_map(s: Seq<(String, File)>) -> Map<Seq<char>, File>
    decreases s.len(),
{
    if s.len() == 0 {
        Map::empty()
    } else {
        entries_map(s.drop_last()).insert(s.last().0@, s.last().1)
    }
}

/// No two entries share a key.
pub open spec fn keys_unique(s: Seq<(String, File)>) -> bool {
    forall|i: int, j: int| 0 <= i < j < s.len() ==> #[trigger] s[i].0@ != #[trigger] s[j].0@
}

proof fn lemma_entries_map(s: Seq<(String, File)>)
    requires
        keys_unique(s),
    ensures
        forall|i: int|
            0 <= i < s.len() ==> #[trigger] entries_map(s).contains_key(s[i].0@) && entries_map(
                s,
            )[s[i].0@] == s[i].1,
        forall|k: Seq<char>|
            #[trigger] entries_map(s).contains_key(k) ==> exists|i: int|
                0 <= i < s.len() && #[trigger] s[i].0@ == k,
        entries_map(s).dom().finite(),
        entries_map(s).dom().len() == s.len(),
    decreases s.len(),
{
    if s.len() > 0 {
        let d = s.drop_last();
        assert(keys_unique(d));
        lemma_entries_map(d);
        let lk = s.last().0@;
        assert(!entries_map(d).contains_key(lk)) by {
            if entries_map(d).contains_key(lk) {
                let i = choose|i: int| 0 <= i < d.len() && #[trigger] d[i].0@ == lk;
                assert(s[i].0@ != s[s.len() - 1].0@);
            }
        }
        assert forall|i: int| 0 <= i < s.len() implies #[trigger] entries_map(s).contains_key(s[i].0@)
            && entries_map(s)[s[i].0@] == s[i].1 by {
            if i < s.len() - 1 {
                assert(d[i] == s[i]);
                assert(s[i].0@ != s[s.len() - 1].0@);
            }
        }
        assert forall|k: Seq<char>| #[trigger] entries_map(s).contains_key(k) implies exists|i: int|
            0 <= i < s.len() && #[trigger] s[i].0@ == k by {
            if k != lk {
                let i = choose|i: int| 0 <= i < d.len() && #[trigger] d[i].0@ == k;
                assert(s[i] == d[i]);
            } else {
                assert(s[s.len() - 1].0@ == k);
            }
        }
    }
}

proof fn lemma_entries_update(s: Seq<(String, File)>, i: int, e: (String, File))
    requires
        keys_unique(s),
        0 <= i < s.len(),
        e.0@ == s[i].0@,
    ensures
        keys_unique(s.update(i, e)),
        entries_map(s.update(i, e)) == entries_map(s).insert(e.0@, e.1),
    decreases s.len(),
{
    let u = s.update(i, e);
    assert(keys_unique(u)) by {
        assert forall|a: int, b: int| 0 <= a < b < u.len() implies #[trigger] u[a].0@ != #[trigger] u[b].0@ by {
            assert(s[a].0@ != s[b].0@);
        }
    }
    let d = s.drop_last();
    if i == s.len() - 1 {
        assert(u.drop_last() =~= d);
        assert(entries_map(u) =~= entries_map(s).insert(e.0@, e.1));
    } else {
        assert(u.drop_last() =~= d.update(i, e));
        assert(keys_unique(d));
        lemma_entries_update(d, i, e);
        assert(s[i].0@ != s[s.len() - 1].0@);
        assert(entries_map(u) =~= entries_map(s).insert(e.0@, e.1));
    }
}

/// The files on offer, each under the hex form of its own root hash.
pub struct FileRepo {
    files: Vec<(String, File)>,
}

impl View for FileRepo {
    type V = Map<Seq<char>, File>;

    closed spec fn view(&self) -> Map<Seq<char>, File> {
        entries_map(self.files@)
    }
}

impl Default for FileRepo {
    fn default() -> (r: FileRepo)
        ensures
            r@ == Map::<Seq<char>, File>::empty(),
    {
        FileRepo { files: Vec::new() }
    }
}

impl FileRepo {
    #[verifier::type_invariant]
    spec fn inv(&self) -> bool {
        &&& keys_unique(self.files@)
        &&& forall|i: int|
            0 <= i < self.files@.len() ==> #[trigger] self.files@[i].0@ == key_of(self.files@[i].1)
    }

    /// The index of the entry under `hash`, if any.
    fn find(&self, hash: &String) -> (r: Option<usize>)
        ensures
            r matches Some(i) ==> i < self.files@.len() && self.files@[i as int].0@ == hash@,
            r is None ==> forall|i: int| 0 <= i < self.files@.len() ==> #[trigger] self.files@[i].0@ != hash@,
    {
        let mut i: usize = 0;
        while i < self.files.len()
            invariant
                i <= self.files@.len(),
                forall|j: int| 0 <= j < i ==> #[trigger] self.files@[j].0@ != hash@,
            decreases self.files@.len() - i,
        {
            if self.files[i].0 == *hash {
                return Some(i);
            }
            i = i + 1;
        }
        None
    }

    /// Stores `file` under the hex form of its root hash, in place of any file
    /// stored there before.
    pub fn add(&mut self, file: File) -> (r: Result<(), RepoError>)
        ensures
            r == Ok::<(), RepoError>(()),
            final(self)@ == old(self)@.insert(key_of(file), file),
    {
        let root = match file.get_root() {
            Ok(root) => root,
            Err(e) => return Err(RepoError::from(e)),
        };
        let hash = encode_hex(root.as_bytes());
        proof {
            use_type_invariant(&*self);
        }
        let found = self.find(&hash);
        let mut taken = FileRepo { files: Vec::new() };
        std::mem::swap(self, &mut taken);
        proof {
            use_type_invariant(&taken);
        }
        let mut files = taken.files;
        match found {
            Some(i) => {
                proof {
                    lemma_entries_update(files@, i as int, (hash, file));
                }
                files.set(i, (hash, file));
            },
            None => {
                proof {
                    let s = files@.push((hash, file));
                    assert(s.drop_last() =~= files@);
                    assert(keys_unique(s)) by {
                        assert forall|a: int, b: int| 0 <= a < b < s.len() implies #[trigger] s[a].0@
                            != #[trigger] s[b].0@ by {
                            if b == s.len() - 1 {
                                assert(s[a] == files@[a]);
                            } else {
                                assert(files@[a].0@ != files@[b].0@);
                            }
                        }
                    }
                }
                files.push((hash, file));
            },
        }
        *self = FileRepo { files };
        Ok(())
    }

    /// One description per stored file, in no set order: its key and its number
    /// of chunks.
    pub fn get_available(&self) -> (r: Vec<FileDescription>)
        ensures
            r@.len() == self@.dom().len(),
            forall|i: int|
                0 <= i < r@.len() ==> #[trigger] self@.contains_key(r@[i].hash@) && r@[i].pieces
                    == self@[r@[i].hash@].spec_chunks().len() && r@[i].hash@ == key_of(
                    self@[r@[i].hash@],
                ),
            forall|i: int, j: int|
                0 <= i < j < r@.len() ==> #[trigger] r@[i].hash@ != #[trigger] r@[j].hash@,
            forall|k: Seq<char>| #[trigger]
                self@.contains_key(k) ==> exists|i: int| 0 <= i < r@.len() && #[trigger] r@[i].hash@ == k,
    {
        proof {
            use_type_invariant(self);
            lemma_entries_map(self.files@);
        }
        let mut out: Vec<FileDescription> = Vec::new();
        let mut i: usize = 0;
        while i < self.files.len()
            invariant
                i <= self.files@.len(),
                out@.len() == i,
                keys_unique(self.files@),
                forall|j: int|
                    0 <= j < self.files@.len() ==> #[trigger] self.files@[j].0@ == key_of(
                        self.files@[j].1,
                    ),
                forall|j: int|
                    0 <= j < i ==> #[trigger] out@[j].hash@ == self.files@[j].0@ && out@[j].pieces
                        == self.files@[j].1.spec_chunks().len(),
            decreases self.files@.len() - i,
        {
            let entry = &self.files[i];
            out.push(FileDescription { hash: entry.0.clone(), pieces: entry.1.get_size() });
            i = i + 1;
        }
        proof {
            assert forall|a: int, b: int| 0 <= a < b < out@.len() implies #[trigger] out@[a].hash@
                != #[trigger] out@[b].hash@ by {
                assert(self.files@[a].0@ != self.files@[b].0@);
            }
            assert forall|k: Seq<char>| #[trigger] self@.contains_key(k) implies exists|j: int|
                0 <= j < out@.len() && #[trigger] out@[j].hash@ == k by {
                let j = choose|j: int| 0 <= j < self.files@.len() && #[trigger] self.files@[j].0@ == k;
                assert(out@[j].hash@ == k);
            }
        }
        out
    }

    /// Chunk `piece` of the file stored under `hash`, with its proof. Fails with
    /// `DoesntExist` where no file is stored under `hash` or it has no such chunk.
    pub fn get_piece(&self, hash: String, piece: usize) -> (r: Result<Piece, RepoError>)
        ensures
            !self@.contains_key(hash@) ==> r matches Err(RepoError::DoesntExist),
            self@.contains_key(hash@) ==> hash@ == key_of(self@[hash@]),
            self@.contains_key(hash@) && piece >= self@[hash@].spec_chunks().len() ==> r matches Err(
                RepoError::DoesntExist,
            ),
            self@.contains_key(hash@) && piece < self@[hash@].spec_chunks().len() ==> (r matches Ok(p)
                && p.content.data@ == self@[hash@].spec_chunks()[piece as int] && p.content.leaf_idx
                == piece && proof_spec(self@[hash@].spec_tree(), piece as int) == Ok::<
                Seq<Sha256Hash>,
                MerkleError,
            >(p.proof@)),
    {
        proof {
            use_type_invariant(self);
            lemma_entries_map(self.files@);
        }
        let i = match self.find(&hash) {
            Some(i) => i,
            None => {
                proof {
                    if self@.contains_key(hash@) {
                        let j = choose|j: int| 0 <= j < self.files@.len() && #[trigger] self.files@[j].0@ == hash@;
                    }
                }
                return Err(RepoError::DoesntExist);
            },
        };
        let file = &self.files[i].1;
        match file.get_chunk(piece) {
            Ok((content, proof)) => Ok(Piece { content, proof }),
            Err(_) => Err(RepoError::DoesntExist),
        }
    }
}

/// Adding two files of the same content stores them under one key: the second
/// takes the place of the first, and the catalog gains at most one entry.
pub proof fn lemma_add_same_content(m: Map<Seq<char>, File>, f1: File, f2: File)
    requires
        f1.spec_chunks() == f2.spec_chunks(),
        m.dom().finite(),
    ensures
        key_of(f1) == key_of(f2),
        m.insert(key_of(f1), f1).insert(key_of(f2), f2) == m.insert(key_of(f2), f2),
        m.insert(key_of(f1), f1).insert(key_of(f2), f2).dom() == m.insert(key_of(f1), f1).dom(),
        m.insert(key_of(f1), f1).insert(key_of(f2), f2).dom().len() == m.dom().len() + if m.contains_key(
            key_of(f1),
        ) {
            0int
        } else {
            1int
        },
{
    let k = key_of(f1);
    assert(m.insert(k, f1).insert(k, f2) =~= m.insert(k, f2));
    assert(m.insert(k, f1).insert(k, f2).dom() =~= m.insert(k, f1).dom());
    if m.contains_key(k) {
        assert(m.insert(k, f2).dom() =~= m.dom());
    } else {
        assert(m.insert(k, f2).dom() =~= m.dom().insert(k));
    }
}

} // verus!
