//! A content-addressable chunk store, where a chunk's key is the digest of its bytes, and the
//! record describing a stored file.
use crate::digest::{sha256, sha256_of};
use crate::table::ByteTable;
use vstd::prelude::*;

verus! {

/// The SHA-256 digest of `data`.
pub fn hash_file(data: &[u8]) -> (r: [u8; 32])
    ensures
        r@ == sha256_of(data@),
{
    sha256(data)
}

/// Content-addressable storage: chunks keyed by their SHA-256 digest.
pub struct CAS {
    storage: ByteTable<Vec<u8>>,
}

impl CAS {
    /// The store's invariant: every chunk is kept under its own digest.
    pub closed spec fn wf(&self) -> bool {
        &&& self.storage.wf()
        &&& forall|h: Seq<u8>| #[trigger] self.storage@.contains_key(h) ==> sha256_of(self.storage@[h]@) == h
    }

    /// The chunks by digest.
    pub closed spec fn contents(&self) -> Map<Seq<u8>, Seq<u8>> {
        self.storage@.map_values(|v: Vec<u8>| v@)
    }

    /// Every chunk is kept under its own digest.
    pub proof fn lemma_content_addressed(&self)
        requires
            self.wf(),
        ensures
            forall|h: Seq<u8>| #[trigger] self.contents().contains_key(h) ==> sha256_of(self.contents()[h]) == h,
    {
    }

    /// An empty store.
    pub fn new() -> (r: CAS)
        ensures
            r.wf(),
            r.contents() == Map::<Seq<u8>, Seq<u8>>::empty(),
    {
        let r = CAS { storage: ByteTable::new() };
        assert(r.contents() =~= Map::<Seq<u8>, Seq<u8>>::empty());
        r
    }

    /// Stores `data` under its digest, which is returned.
    pub fn add(&mut self, data: Vec<u8>) -> (r: [u8; 32])
        requires
            old(self).wf(),
        ensures
            final(self).wf(),
            r@ == sha256_of(data@),
            final(self).contents() == old(self).contents().insert(r@, data@),
    {
        let hash = self.hash(data.as_slice());
        let ghost d = data@;
        self.storage.insert(hash.as_slice(), data);
        proof {
            assert(self.contents() =~= old(self).contents().insert(hash@, d));
            assert forall|h: Seq<u8>| #[trigger] self.storage@.contains_key(h) implies sha256_of(
                self.storage@[h]@,
            ) == h by {
                if h != hash@ {
                    assert(old(self).storage@.contains_key(h));
                }
            }
        }
        hash
    }

    /// The chunk whose digest is `hash`.
    pub fn get(&self, hash: &[u8; 32]) -> (r: Option<&Vec<u8>>)
        requires
            self.wf(),
        ensures
            match r {
                Some(v) => self.contents().contains_key(hash@) && v@ == self.contents()[hash@]
                    && sha256_of(v@) == hash@,
                None => !self.contents().contains_key(hash@),
            },
    {
        self.storage.get(hash.as_slice())
    }

    /// The digest of `data`.
    fn hash(&self, data: &[u8]) -> (r: [u8; 32])
        ensures
            r@ == sha256_of(data@),
    {
        sha256(data)
    }

    /// Removes the chunk whose digest is `chunk_hash`, if present.
    pub fn remove(&mut self, chunk_hash: [u8; 32])
        requires
            old(self).wf(),
        ensures
            final(self).wf(),
            final(self).contents() == old(self).contents().remove(chunk_hash@),
    {
        self.storage.remove(chunk_hash.as_slice());
        proof {
            assert(self.contents() =~= old(self).contents().remove(chunk_hash@));
            assert forall|h: Seq<u8>| #[trigger] self.storage@.contains_key(h) implies sha256_of(
                self.storage@[h]@,
            ) == h by {
                assert(old(self).storage@.contains_key(h));
            }
        }
    }
}

/// The record of a stored file: its digest, name, date, size, author, total size and the
/// digests of its chunks in order.
#[derive(Clone, Debug)]
pub struct FileInfo {
    pub filehash: [u8; 32],
    pub name: String,
    pub date: usize,
    pub size: usize,
    pub author: String,
    pub total_size: usize,
    pub chunk_hashes: Vec<[u8; 32]>,
}

impl FileInfo {
    /// A record holding the given fields.
    pub fn new(
        filehash: [u8; 32],
        name: String,
        date: usize,
        size: usize,
        author: String,
        total_size: usize,
        chunk_hashes: Vec<[u8; 32]>,
    ) -> (r: FileInfo)
        ensures
            r.filehash == filehash,
            r.name == name,
            r.date == date,
            r.size == size,
            r.author == author,
            r.total_size == total_size,
            r.chunk_hashes == chunk_hashes,
    {
        Self { filehash, name, date, size, author, total_size, chunk_hashes }
    }
}

} // verus!
