//! The peer RPC surface: each request handled against the node's store and routing table.
use crate::codec::{canonical, encode_metadata};
use crate::dht::{insertion_effect, Insertion, Peer, RoutingTable, K_VALUE};
use crate::node::{id_from_bytes, Node, RpcError};
use crate::storage::FileInfo;
use crate::digest::sha256_of;
use vstd::prelude::*;

verus! {

/// The answer to FIND_VALUE: the value, or the closest peers known.
pub enum FindValueReply {
    Value(String),
    ClosestPeers(Vec<Peer>),
}

/// The addresses of the peers of buckets `0..i`, bucket by bucket, front first.
pub open spec fn addresses_upto(t: RoutingTable, i: int) -> Seq<Seq<char>>
    decreases i,
{
    if i <= 0 {
        Seq::empty()
    } else {
        addresses_upto(t, i - 1) + t.bucket(i - 1).map_values(|p: Peer| p.address@)
    }
}

/// The request handlers of one node.
pub struct PeerServer {
    pub node: Node,
}

impl PeerServer {
    /// The server's invariant: that of its node.
    pub open spec fn wf(&self) -> bool {
        self.node.wf()
    }

    /// PING: inserts the sender into the routing table and answers with this node's
    /// identifier. When the sender's bucket is full, the insertion says which peer to ping
    /// before `Node::settle_full_bucket`.
    pub fn ping(&mut self, sender_id: &[u8], sender_address: String) -> (r: Result<([u8; 32], Insertion), RpcError>)
        requires
            old(self).wf(),
        ensures
            final(self).wf(),
            final(self).node.id == old(self).node.id,
            final(self).node.storage == old(self).node.storage,
            (r is Err) <==> sender_id@.len() != 32,
            r matches Err(e) ==> e is InvalidArgument,
            r matches Ok((id, ins)) ==> id == old(self).node.id && exists|s: [u8; 32]|
                s@ == sender_id@ && insertion_effect(
                    old(self).node.routing_table,
                    final(self).node.routing_table,
                    (Peer { node_id: s, address: sender_address }),
                    ins,
                ),
    {
        match self.node.learn_peer(sender_id, sender_address) {
            Ok(ins) => Ok((self.node.id, ins)),
            Err(e) => Err(e),
        }
    }

    /// STORE: keeps `value` as the provider of `key`, replacing an earlier one.
    pub fn store(&mut self, key: &[u8], value: &str) -> (r: bool)
        requires
            old(self).wf(),
        ensures
            final(self).wf(),
            r,
            final(self).node.storage.value_map() == old(self).node.storage.value_map().insert(
                key@,
                value@,
            ),
            final(self).node.storage.chunk_map() == old(self).node.storage.chunk_map(),
            final(self).node.storage.metadata_map() == old(self).node.storage.metadata_map(),
            final(self).node.routing_table == old(self).node.routing_table,
            final(self).node.id == old(self).node.id,
    {
        self.node.storage.store_value(key, value);
        true
    }

    /// FIND_NODE: the `K_VALUE` known peers closest to `target_id`.
    pub fn find_node(&self, target_id: &[u8]) -> (r: Result<Vec<Peer>, RpcError>)
        requires
            self.wf(),
        ensures
            (r is Err) <==> target_id@.len() != 32,
            r matches Err(e) ==> e is InvalidArgument,
            r matches Ok(peers) ==> exists|t: [u8; 32]|
                t@ == target_id@ && self.node.routing_table.closest_ok(t, K_VALUE as nat, peers@),
    {
        match id_from_bytes(target_id) {
            None => Err(RpcError::InvalidArgument),
            Some(t) => Ok(self.node.routing_table.find_closest_peers(&t)),
        }
    }

    /// FIND_VALUE: the value stored under `key` if there is one, else the `K_VALUE` known
    /// peers closest to it.
    pub fn find_value(&self, key: &[u8]) -> (r: Result<FindValueReply, RpcError>)
        requires
            self.wf(),
        ensures
            match r {
                Ok(FindValueReply::Value(v)) => self.node.storage.value_map().contains_key(key@)
                    && v@ == self.node.storage.value_map()[key@],
                Ok(FindValueReply::ClosestPeers(peers)) => !self.node.storage.value_map().contains_key(
                    key@,
                ) && exists|t: [u8; 32]|
                    t@ == key@ && self.node.routing_table.closest_ok(t, K_VALUE as nat, peers@),
                Err(e) => e is InvalidArgument && !self.node.storage.value_map().contains_key(key@)
                    && key@.len() != 32,
            },
    {
        match self.node.storage.get_value(key) {
            Some(v) => Ok(FindValueReply::Value(v)),
            None => match self.find_node(key) {
                Ok(peers) => Ok(FindValueReply::ClosestPeers(peers)),
                Err(e) => Err(e),
            },
        }
    }

    /// GET_CHUNK: the chunk stored under `chunk_hash`.
    pub fn get_chunk(&self, chunk_hash: &[u8]) -> (r: Result<Vec<u8>, RpcError>)
        requires
            self.wf(),
        ensures
            match r {
                Ok(v) => self.node.storage.chunk_map().contains_key(chunk_hash@) && v@
                    == self.node.storage.chunk_map()[chunk_hash@] && sha256_of(v@) == chunk_hash@,
                Err(e) => e is NotFound && !self.node.storage.chunk_map().contains_key(chunk_hash@),
            },
    {
        match self.node.get_chunk(chunk_hash) {
            Some(v) => Ok(v),
            None => Err(RpcError::NotFound),
        }
    }

    /// GET_FILE_METADATA: the canonical encoding of the metadata stored under `file_hash`.
    pub fn get_file_metadata(&self, file_hash: &[u8]) -> (r: Result<Vec<u8>, RpcError>)
        requires
            self.wf(),
        ensures
            match r {
                Ok(bytes) => self.node.storage.metadata_map().contains_key(file_hash@) && bytes@
                    == canonical(self.node.storage.metadata_map()[file_hash@]) && sha256_of(bytes@)
                    == file_hash@,
                Err(e) => e is NotFound && !self.node.storage.metadata_map().contains_key(
                    file_hash@,
                ),
            },
    {
        match self.node.get_metadata(file_hash) {
            Some(m) => Ok(encode_metadata(&m)),
            None => Err(RpcError::NotFound),
        }
    }

    /// LIST_PEERS: the address of every peer of the routing table, bucket by bucket.
    pub fn list_peers(&self) -> (r: Vec<String>)
        requires
            self.wf(),
        ensures
            r@.map_values(|s: String| s@) == addresses_upto(self.node.routing_table, 256),
    {
        let t = &self.node.routing_table;
        let mut out: Vec<String> = Vec::new();
        let mut i: usize = 0;
        while i < 256
            invariant
                t.wf(),
                0 <= i <= 256,
                out@.map_values(|s: String| s@) == addresses_upto(*t, i as int),
            decreases 256 - i,
        {
            let bucket = &t.buckets[i];
            let ghost start = out@.map_values(|s: String| s@);
            let mut j: usize = 0;
            while j < bucket.len()
                invariant
                    0 <= j <= bucket@.len(),
                    out@.map_values(|s: String| s@) == start + bucket@.subrange(0, j as int).map_values(
                        |p: Peer| p.address@,
                    ),
                decreases bucket@.len() - j,
            {
                let ghost prev = out@;
                out.push(bucket[j].address.clone());
                proof {
                    assert(out@.map_values(|s: String| s@) =~= prev.map_values(|s: String| s@).push(
                        bucket@[j as int].address@,
                    ));
                    assert(bucket@.subrange(0, j + 1).map_values(|p: Peer| p.address@) =~= bucket@.subrange(
                        0,
                        j as int,
                    ).map_values(|p: Peer| p.address@).push(bucket@[j as int].address@));
                }
                j = j + 1;
                assert(out@.map_values(|s: String| s@) =~= start + bucket@.subrange(0, j as int).map_values(
                    |p: Peer| p.address@,
                ));
            }
            assert(bucket@.subrange(0, j as int) =~= bucket@);
            i = i + 1;
        }
        out
    }

    /// LIST_FILES: all stored metadata.
    pub fn list_files(&self) -> (r: Vec<FileInfo>)
        requires
            self.wf(),
        ensures
            r@.map_values(|m: FileInfo| m@) == self.node.storage.metadata_list(),
    {
        self.node.get_all_metadata()
    }

    /// INITIATE_UPLOAD: stores `metadata` under `file_hash`, which must be the digest of its
    /// canonical encoding.
    pub fn initiate_upload(&mut self, file_hash: &[u8], metadata: &FileInfo) -> (r: Result<(), RpcError>)
        requires
            old(self).wf(),
        ensures
            final(self).wf(),
            r is Ok <==> sha256_of(canonical(metadata@)) == file_hash@,
            r matches Err(e) ==> e is IntegrityError,
            r is Ok ==> final(self).node.storage.metadata_map() == old(
                self,
            ).node.storage.metadata_map().insert(file_hash@, metadata@),
            r is Err ==> final(self).node.storage.metadata_map() == old(
                self,
            ).node.storage.metadata_map(),
            final(self).node.storage.chunk_map() == old(self).node.storage.chunk_map(),
            final(self).node.storage.value_map() == old(self).node.storage.value_map(),
            final(self).node.routing_table == old(self).node.routing_table,
            final(self).node.id == old(self).node.id,
    {
        if self.node.store_metadata(file_hash, metadata) {
            Ok(())
        } else {
            Err(RpcError::IntegrityError)
        }
    }

    /// UPLOAD_CHUNK: stores `chunk_data` under `chunk_hash`, which must be its digest.
    pub fn upload_chunk(&mut self, chunk_hash: &[u8], chunk_data: &[u8]) -> (r: Result<(), RpcError>)
        requires
            old(self).wf(),
        ensures
            final(self).wf(),
            r is Ok <==> sha256_of(chunk_data@) == chunk_hash@,
            r matches Err(e) ==> e is IntegrityError,
            r is Ok ==> final(self).node.storage.chunk_map() == old(self).node.storage.chunk_map().insert(
                chunk_hash@,
                chunk_data@,
            ),
            r is Err ==> final(self).node.storage.chunk_map() == old(self).node.storage.chunk_map(),
            final(self).node.storage.metadata_map() == old(self).node.storage.metadata_map(),
            final(self).node.storage.value_map() == old(self).node.storage.value_map(),
            final(self).node.routing_table == old(self).node.routing_table,
            final(self).node.id == old(self).node.id,
    {
        if self.node.store_chunk(chunk_hash, chunk_data) {
            Ok(())
        } else {
            Err(RpcError::IntegrityError)
        }
    }
}

} // verus!
