//! The local store: chunks by digest, file metadata by file identifier, and provider values
//! by key, in three separate keyspaces.
use crate::table::{slice_to_vec, ByteTable};
use vstd::prelude::*;

verus! {

/// The metadata of one file: its name, its size in bytes, and the digests of its chunks in
/// file order.
#[derive(Clone, Debug)]
pub struct FileInfo {
    pub name: String,
    pub size: u64,
    pub chunk_hashes: Vec<Vec<u8>>,
}

/// The mathematical value of a `FileInfo`.
pub struct FileMeta {
    pub name: Seq<char>,
    pub size: u64,
    pub chunk_hashes: Seq<Seq<u8>>,
}

/// The byte strings held by a vector of byte vectors.
pub open spec fn byte_seqs(v: Seq<Vec<u8>>) -> Seq<Seq<u8>> {
    v.map_values(|h: Vec<u8>| h@)
}

impl View for FileInfo {
    type V = FileMeta;

    open spec fn view(&self) -> FileMeta {
        FileMeta { name: self.name@, size: self.size, chunk_hashes: byte_seqs(self.chunk_hashes@) }
    }
}

/// A copy of a vector of byte vectors.
pub fn copy_byte_vecs(v: &Vec<Vec<u8>>) -> (r: Vec<Vec<u8>>)
    ensures
        byte_seqs(r@) == byte_seqs(v@),
{
    let mut r: Vec<Vec<u8>> = Vec::new();
    let mut i: usize = 0;
    while i < v.len()
        invariant
            0 <= i <= v@.len(),
            r@.len() == i,
            forall|k: int| 0 <= k < i ==> #[trigger] r@[k]@ == v@[k]@,
        decreases v@.len() - i,
    {
        r.push(slice_to_vec(v[i].as_slice()));
        i = i + 1;
    }
    assert(byte_seqs(r@) =~= byte_seqs(v@));
    r
}

impl FileInfo {
    /// A copy of this metadata.
    pub fn duplicate(&self) -> (r: FileInfo)
        ensures
            r@ == self@,
    {
        FileInfo {
            name: self.name.clone(),
            size: self.size,
            chunk_hashes: copy_byte_vecs(&self.chunk_hashes),
        }
    }
}

/// The three keyspaces of a node's local store.
pub struct Storage {
    chunks: ByteTable<Vec<u8>>,
    metadata: ByteTable<FileInfo>,
    dht_values: ByteTable<String>,
}

impl Storage {
    /// The store's invariant.
    pub closed spec fn wf(&self) -> bool {
        &&& self.chunks.wf()
        &&& self.metadata.wf()
        &&& self.dht_values.wf()
    }

    /// Chunk bytes by chunk digest.
    pub closed spec fn chunk_map(&self) -> Map<Seq<u8>, Seq<u8>> {
        self.chunks@.map_values(|v: Vec<u8>| v@)
    }

    /// File metadata by file identifier.
    pub closed spec fn metadata_map(&self) -> Map<Seq<u8>, FileMeta> {
        self.metadata@.map_values(|m: FileInfo| m@)
    }

    /// Provider values by key.
    pub closed spec fn value_map(&self) -> Map<Seq<u8>, Seq<char>> {
        self.dht_values@.map_values(|s: String| s@)
    }

    /// All stored metadata, one entry per file identifier, in order of first storage.
    pub closed spec fn metadata_list(&self) -> Seq<FileMeta> {
        self.metadata.values@.map_values(|m: FileInfo| m@)
    }

    /// Whether `m` is stored under some file identifier.
    pub open spec fn is_stored_metadata(&self, m: FileMeta) -> bool {
        exists|k: Seq<u8>| #[trigger] self.metadata_map().contains_key(k) && self.metadata_map()[k] == m
    }

    /// The list holds exactly the values of the metadata map, one per key.
    pub proof fn lemma_metadata_list(&self)
        requires
            self.wf(),
        ensures
            forall|i: int|
                0 <= i < self.metadata_list().len() ==> self.is_stored_metadata(
                    #[trigger] self.metadata_list()[i],
                ),
            forall|k: Seq<u8>|
                #[trigger] self.metadata_map().contains_key(k) ==> exists|i: int|
                    0 <= i < self.metadata_list().len() && self.metadata_list()[i]
                        == self.metadata_map()[k],
    {
        assert forall|i: int| 0 <= i < self.metadata_list().len() implies self.is_stored_metadata(
            #[trigger] self.metadata_list()[i],
        ) by {
            self.metadata.lemma_index(i);
            let k = self.metadata.keys@[i]@;
            assert(self.metadata_map().contains_key(k));
            assert(self.metadata_map()[k] == self.metadata_list()[i]);
        }
        assert forall|k: Seq<u8>| #[trigger] self.metadata_map().contains_key(k) implies exists|
            i: int,
        |
            0 <= i < self.metadata_list().len() && self.metadata_list()[i] == self.metadata_map()[k] by {
            let i = self.metadata.index_of(k);
            self.metadata.lemma_index(i);
            assert(self.metadata_list()[i] == self.metadata_map()[k]);
        }
    }

    /// An empty store.
    pub fn new() -> (r: Storage)
        ensures
            r.wf(),
            r.chunk_map() == Map::<Seq<u8>, Seq<u8>>::empty(),
            r.metadata_map() == Map::<Seq<u8>, FileMeta>::empty(),
            r.value_map() == Map::<Seq<u8>, Seq<char>>::empty(),
            r.metadata_list().len() == 0,
    {
        let r = Storage { chunks: ByteTable::new(), metadata: ByteTable::new(), dht_values: ByteTable::new() };
        assert(r.chunk_map() =~= Map::<Seq<u8>, Seq<u8>>::empty());
        assert(r.metadata_map() =~= Map::<Seq<u8>, FileMeta>::empty());
        assert(r.value_map() =~= Map::<Seq<u8>, Seq<char>>::empty());
        r
    }

    /// Stores the bytes `data` of a chunk under its digest `hash`.
    pub fn store_chunk(&mut self, hash: &[u8], data: &[u8])
        requires
            old(self).wf(),
        ensures
            final(self).wf(),
            final(self).chunk_map() == old(self).chunk_map().insert(hash@, data@),
            final(self).metadata_map() == old(self).metadata_map(),
            final(self).metadata_list() == old(self).metadata_list(),
            final(self).value_map() == old(self).value_map(),
    {
        let ghost old_s = *self;
        self.chunks.insert(hash, slice_to_vec(data));
        assert(self.chunk_map() =~= old_s.chunk_map().insert(hash@, data@));
    }

    /// The chunk stored under `hash`.
    pub fn get_chunk(&self, hash: &[u8]) -> (r: Option<Vec<u8>>)
        requires
            self.wf(),
        ensures
            match r {
                Some(v) => self.chunk_map().contains_key(hash@) && v@ == self.chunk_map()[hash@],
                None => !self.chunk_map().contains_key(hash@),
            },
    {
        match self.chunks.get(hash) {
            Some(v) => Some(slice_to_vec(v.as_slice())),
            None => None,
        }
    }

    /// Stores `metadata` under the file identifier `hash`.
    pub fn store_metadata(&mut self, hash: &[u8], metadata: &FileInfo)
        requires
            old(self).wf(),
        ensures
            final(self).wf(),
            final(self).metadata_map() == old(self).metadata_map().insert(hash@, metadata@),
            old(self).metadata_map().contains_key(hash@) ==> final(self).metadata_list().len()
                == old(self).metadata_list().len(),
            !old(self).metadata_map().contains_key(hash@) ==> final(self).metadata_list()
                == old(self).metadata_list().push(metadata@),
            final(self).chunk_map() == old(self).chunk_map(),
            final(self).value_map() == old(self).value_map(),
    {
        let ghost old_s = *self;
        let m = metadata.duplicate();
        self.metadata.insert(hash, m);
        proof {
            assert(self.metadata_map() =~= old_s.metadata_map().insert(hash@, metadata@));
            if !old_s.metadata_map().contains_key(hash@) {
                assert(self.metadata_list() =~= old_s.metadata_list().push(metadata@));
            }
        }
    }

    /// The metadata stored under the file identifier `hash`.
    pub fn get_metadata(&self, hash: &[u8]) -> (r: Option<FileInfo>)
        requires
            self.wf(),
        ensures
            match r {
                Some(m) => self.metadata_map().contains_key(hash@) && m@ == self.metadata_map()[hash@],
                None => !self.metadata_map().contains_key(hash@),
            },
    {
        match self.metadata.get(hash) {
            Some(m) => Some(m.duplicate()),
            None => None,
        }
    }

    /// All stored metadata.
    pub fn get_all_metadata(&self) -> (r: Vec<FileInfo>)
        requires
            self.wf(),
        ensures
            r@.map_values(|m: FileInfo| m@) == self.metadata_list(),
    {
        let mut r: Vec<FileInfo> = Vec::new();
        let mut i: usize = 0;
        while i < self.metadata.values.len()
            invariant
                self.wf(),
                0 <= i <= self.metadata.values@.len(),
                r@.len() == i,
                forall|k: int| 0 <= k < i ==> #[trigger] r@[k]@ == self.metadata.values@[k]@,
            decreases self.metadata.values@.len() - i,
        {
            r.push(self.metadata.values[i].duplicate());
            i = i + 1;
        }
        assert(r@.map_values(|m: FileInfo| m@) =~= self.metadata_list());
        r
    }

    /// Stores the provider value `value` under `key`; a later value replaces an earlier one.
    pub fn store_value(&mut self, key: &[u8], value: &str)
        requires
            old(self).wf(),
        ensures
            final(self).wf(),
            final(self).value_map() == old(self).value_map().insert(key@, value@),
            final(self).chunk_map() == old(self).chunk_map(),
            final(self).metadata_map() == old(self).metadata_map(),
            final(self).metadata_list() == old(self).metadata_list(),
    {
        let ghost old_s = *self;
        self.dht_values.insert(key, value.to_owned());
        assert(self.value_map() =~= old_s.value_map().insert(key@, value@));
    }

    /// The provider value stored under `key`.
    pub fn get_value(&self, key: &[u8]) -> (r: Option<String>)
        requires
            self.wf(),
        ensures
            match r {
                Some(v) => self.value_map().contains_key(key@) && v@ == self.value_map()[key@],
                None => !self.value_map().contains_key(key@),
            },
    {
        match self.dht_values.get(key) {
            Some(v) => Some(v.clone()),
            None => None,
        }
    }

    /// Storing a chunk again under the same digest leaves the chunks as they were.
    pub proof fn lemma_store_chunk_idempotent(&self, hash: Seq<u8>, data: Seq<u8>)
        requires
            self.chunk_map().contains_key(hash),
            self.chunk_map()[hash] == data,
        ensures
            self.chunk_map().insert(hash, data) == self.chunk_map(),
    {
        assert(self.chunk_map().insert(hash, data) =~= self.chunk_map());
    }

    /// Storing metadata again under the same identifier leaves the metadata as it was.
    pub proof fn lemma_store_metadata_idempotent(&self, hash: Seq<u8>, metadata: FileMeta)
        requires
            self.metadata_map().contains_key(hash),
            self.metadata_map()[hash] == metadata,
        ensures
            self.metadata_map().insert(hash, metadata) == self.metadata_map(),
    {
        assert(self.metadata_map().insert(hash, metadata) =~= self.metadata_map());
    }
}

} // verus!
