//! A peer node: its identity, its local store and its routing table, with the invariants that
//! tie them together.
use crate::codec::{canonical, encode_metadata};
use crate::dht::{
    has_id, insertion_effect, settlement_effect, Insertion, Peer, RoutingTable, K_VALUE,
};
use crate::digest::{bytes_equal, sha256, sha256_of};
use crate::lookup::Lookup;
use crate::storage::{FileInfo, FileMeta, Storage};
use vstd::prelude::*;
use vstd::string::StringSliceAdditionalSpecFns;

verus! {

/// A node of the overlay.
pub struct Node {
    pub id: [u8; 32],
    pub address: String,
    pub storage: Storage,
    pub routing_table: RoutingTable,
}

/// How a FIND_VALUE starts: with the value at hand, or with a lookup to run.
pub enum FindValueStart {
    Found(String),
    Lookup(Lookup),
}

/// Why a request was refused.
pub enum RpcError {
    /// A field of the request is malformed (an identifier that is not 32 bytes long).
    InvalidArgument,
    /// Nothing is stored under the key asked for.
    NotFound,
    /// The content does not hash to the digest it came with; nothing was stored.
    IntegrityError,
}

/// Every stored chunk is stored under its own digest.
pub open spec fn chunks_addressed(chunks: Map<Seq<u8>, Seq<u8>>) -> bool {
    forall|h: Seq<u8>| #[trigger] chunks.contains_key(h) ==> sha256_of(chunks[h]) == h
}

/// Every stored metadata is stored under the digest of its canonical encoding.
pub open spec fn metadata_addressed(metadata: Map<Seq<u8>, FileMeta>) -> bool {
    forall|f: Seq<u8>| #[trigger] metadata.contains_key(f) ==> sha256_of(canonical(metadata[f])) == f
}

/// An identifier read from a byte string of length 32.
pub fn id_from_bytes(b: &[u8]) -> (r: Option<[u8; 32]>)
    ensures
        match r {
            Some(id) => id@ == b@,
            None => b@.len() != 32,
        },
{
    if b.len() != 32 {
        return None;
    }
    let mut id = [0u8; 32];
    let mut i: usize = 0;
    while i < 32
        invariant
            b@.len() == 32,
            0 <= i <= 32,
            forall|k: int| 0 <= k < i ==> id@[k] == b@[k],
        decreases 32 - i,
    {
        id[i] = b[i];
        i = i + 1;
    }
    assert(id@ =~= b@);
    Some(id)
}

impl Node {
    /// The node's invariant: its parts are well formed, its table is centred on its identifier,
    /// and its store is content-addressed.
    pub open spec fn wf(&self) -> bool {
        &&& self.storage.wf()
        &&& self.routing_table.wf()
        &&& self.routing_table.local_node_id == self.id
        &&& chunks_addressed(self.storage.chunk_map())
        &&& metadata_addressed(self.storage.metadata_map())
    }

    /// A node reached at `address`, whose identifier is the digest of that address.
    pub fn new(address: &str) -> (r: Node)
        ensures
            r.wf(),
            r.id@ == sha256_of(address.spec_bytes()),
            r.address@ == address@,
            r.storage.chunk_map() == Map::<Seq<u8>, Seq<u8>>::empty(),
            r.storage.metadata_map() == Map::<Seq<u8>, FileMeta>::empty(),
            r.storage.value_map() == Map::<Seq<u8>, Seq<char>>::empty(),
            forall|i: int| 0 <= i < 256 ==> r.routing_table.bucket(i).len() == 0,
    {
        let id = sha256(address.as_bytes());
        let storage = Storage::new();
        let routing_table = RoutingTable::new(id);
        Node { id, address: address.to_owned(), storage, routing_table }
    }

    /// Stores a chunk if `hash` is the digest of `data`; returns whether it did.
    pub fn store_chunk(&mut self, hash: &[u8], data: &[u8]) -> (r: bool)
        requires
            old(self).wf(),
        ensures
            final(self).wf(),
            r == (sha256_of(data@) == hash@),
            r ==> final(self).storage.chunk_map() == old(self).storage.chunk_map().insert(hash@, data@),
            !r ==> final(self).storage.chunk_map() == old(self).storage.chunk_map(),
            final(self).storage.metadata_map() == old(self).storage.metadata_map(),
            final(self).storage.metadata_list() == old(self).storage.metadata_list(),
            final(self).storage.value_map() == old(self).storage.value_map(),
            final(self).routing_table == old(self).routing_table,
            final(self).id == old(self).id,
    {
        let digest = sha256(data);
        if !bytes_equal(digest.as_slice(), hash) {
            return false;
        }
        self.storage.store_chunk(hash, data);
        proof {
            let m = self.storage.chunk_map();
            assert forall|h: Seq<u8>| #[trigger] m.contains_key(h) implies sha256_of(m[h]) == h by {
                if h != hash@ {
                    assert(old(self).storage.chunk_map().contains_key(h));
                }
            }
        }
        true
    }

    /// The chunk stored under `hash`.
    pub fn get_chunk(&self, hash: &[u8]) -> (r: Option<Vec<u8>>)
        requires
            self.wf(),
        ensures
            match r {
                Some(v) => self.storage.chunk_map().contains_key(hash@) && v@
                    == self.storage.chunk_map()[hash@] && sha256_of(v@) == hash@,
                None => !self.storage.chunk_map().contains_key(hash@),
            },
    {
        self.storage.get_chunk(hash)
    }

    /// Stores `metadata` if `hash` is the digest of its canonical encoding; returns whether it
    /// did.
    pub fn store_metadata(&mut self, hash: &[u8], metadata: &FileInfo) -> (r: bool)
        requires
            old(self).wf(),
        ensures
            final(self).wf(),
            r == (sha256_of(canonical(metadata@)) == hash@),
            r ==> final(self).storage.metadata_map() == old(self).storage.metadata_map().insert(
                hash@,
                metadata@,
            ),
            !r ==> final(self).storage.metadata_map() == old(self).storage.metadata_map(),
            final(self).storage.chunk_map() == old(self).storage.chunk_map(),
            final(self).storage.value_map() == old(self).storage.value_map(),
            final(self).routing_table == old(self).routing_table,
            final(self).id == old(self).id,
    {
        let encoded = encode_metadata(metadata);
        let digest = sha256(encoded.as_slice());
        if !bytes_equal(digest.as_slice(), hash) {
            return false;
        }
        self.storage.store_metadata(hash, metadata);
        proof {
            let m = self.storage.metadata_map();
            assert forall|f: Seq<u8>| #[trigger] m.contains_key(f) implies sha256_of(canonical(m[f]))
                == f by {
                if f != hash@ {
                    assert(old(self).storage.metadata_map().contains_key(f));
                }
            }
        }
        true
    }

    /// The metadata stored under the file identifier `hash`.
    pub fn get_metadata(&self, hash: &[u8]) -> (r: Option<FileInfo>)
        requires
            self.wf(),
        ensures
            match r {
                Some(m) => self.storage.metadata_map().contains_key(hash@) && m@
                    == self.storage.metadata_map()[hash@] && sha256_of(canonical(m@)) == hash@,
                None => !self.storage.metadata_map().contains_key(hash@),
            },
    {
        self.storage.get_metadata(hash)
    }

    /// All stored metadata.
    pub fn get_all_metadata(&self) -> (r: Vec<FileInfo>)
        requires
            self.wf(),
        ensures
            r@.map_values(|m: FileInfo| m@) == self.storage.metadata_list(),
    {
        self.storage.get_all_metadata()
    }

    /// Inserts `peer` into the routing table (see `RoutingTable::add_peer`).
    pub fn add_peer(&mut self, peer: Peer) -> (r: Insertion)
        requires
            old(self).wf(),
        ensures
            final(self).wf(),
            final(self).id == old(self).id,
            final(self).storage == old(self).storage,
            insertion_effect(old(self).routing_table, final(self).routing_table, peer, r),
    {
        let r = self.routing_table.add_peer(peer);
        r
    }

    /// Finishes an insertion that found a full bucket (see `RoutingTable::settle_full_bucket`).
    pub fn settle_full_bucket(&mut self, peer: Peer, incumbent_responded: bool) -> (r: Insertion)
        requires
            old(self).wf(),
        ensures
            final(self).wf(),
            final(self).id == old(self).id,
            final(self).storage == old(self).storage,
            settlement_effect(
                old(self).routing_table,
                final(self).routing_table,
                peer,
                incumbent_responded,
                r,
            ),
    {
        let r = self.routing_table.settle_full_bucket(peer, incumbent_responded);
        r
    }

    /// Inserts the peer `address` whose identifier came over the wire as `node_id`, as after a
    /// PING answered by a bootstrap peer. A `node_id` that is not 32 bytes long is refused.
    pub fn learn_peer(&mut self, node_id: &[u8], address: String) -> (r: Result<Insertion, RpcError>)
        requires
            old(self).wf(),
        ensures
            final(self).wf(),
            final(self).id == old(self).id,
            final(self).storage == old(self).storage,
            (r is Err) <==> node_id@.len() != 32,
            r matches Err(e) ==> e is InvalidArgument && final(self).routing_table == old(
                self,
            ).routing_table,
            r matches Ok(ins) ==> exists|id: [u8; 32]|
                id@ == node_id@ && insertion_effect(
                    old(self).routing_table,
                    final(self).routing_table,
                    (Peer { node_id: id, address: address }),
                    ins,
                ),
    {
        match id_from_bytes(node_id) {
            None => Err(RpcError::InvalidArgument),
            Some(id) => {
                let r = self.add_peer(Peer { node_id: id, address });
                Ok(r)
            },
        }
    }

    /// Starts a FIND_NODE for `target` from the table's closest peers.
    pub fn begin_find_node(&self, target: &[u8; 32]) -> (r: Lookup)
        requires
            self.wf(),
        ensures
            r.wf(),
            r.target == *target,
            r.queried@.len() == 0,
            exists|c: Seq<Peer>|
                {
                    &&& self.routing_table.closest_ok(*target, K_VALUE as nat, c)
                    &&& forall|q: Peer| #[trigger] r.shortlist@.contains(q) ==> c.contains(q)
                    &&& forall|k: int| 0 <= k < c.len() ==> has_id(r.shortlist@, #[trigger] c[k].node_id)
                },
    {
        let closest = self.routing_table.find_closest_peers(target);
        Lookup::new(*target, &closest)
    }

    /// Starts a FIND_VALUE for `key`: a value held locally is the answer at once, with no
    /// network call; else a lookup starts as for FIND_NODE.
    pub fn begin_find_value(&self, key: &[u8; 32]) -> (r: FindValueStart)
        requires
            self.wf(),
        ensures
            match r {
                FindValueStart::Found(v) => self.storage.value_map().contains_key(key@) && v@
                    == self.storage.value_map()[key@],
                FindValueStart::Lookup(l) => !self.storage.value_map().contains_key(key@) && l.wf()
                    && l.target == *key && l.queried@.len() == 0 && exists|c: Seq<Peer>|
                    {
                        &&& self.routing_table.closest_ok(*key, K_VALUE as nat, c)
                        &&& forall|q: Peer| #[trigger] l.shortlist@.contains(q) ==> c.contains(q)
                        &&& forall|k: int| 0 <= k < c.len() ==> has_id(l.shortlist@, #[trigger] c[k].node_id)
                    },
            },
    {
        match self.storage.get_value(key.as_slice()) {
            Some(v) => FindValueStart::Found(v),
            None => FindValueStart::Lookup(self.begin_find_node(key)),
        }
    }

    /// Every chunk a node stores hashes to its key, and every metadata it stores has an
    /// encoding that hashes to its key.
    pub proof fn lemma_store_integrity(&self)
        requires
            self.wf(),
        ensures
            forall|h: Seq<u8>|
                #[trigger] self.storage.chunk_map().contains_key(h) ==> sha256_of(
                    self.storage.chunk_map()[h],
                ) == h,
            forall|f: Seq<u8>|
                #[trigger] self.storage.metadata_map().contains_key(f) ==> sha256_of(
                    canonical(self.storage.metadata_map()[f]),
                ) == f,
    {
    }
}

} // verus!
