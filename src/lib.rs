//! A peer-to-peer content-addressed file store over a Kademlia-style overlay.
//!
//! Files are split into chunks named by their SHA-256 digest; a file is named by the digest of
//! its metadata's canonical encoding. Peers sit in a routing table of XOR-distance buckets and
//! find each other, and the providers of files, by iterative lookups.
//!
//! - `digest`: SHA-256 and the XOR metric on 32-byte identifiers.
//! - `table`, `storage`, `fs`: the local stores.
//! - `codec`: the canonical encoding of file metadata.
//! - `dht`: the routing table.
//! - `lookup`: the iterative FIND_NODE / FIND_VALUE state machine.
//! - `node`, `server`: a node and its request handlers.
//! - `transfer`: chunking, upload preparation and download reassembly.

pub mod codec;
pub mod dht;
pub mod digest;
pub mod fs;
pub mod lookup;
pub mod node;
pub mod server;
pub mod storage;
pub mod table;
pub mod transfer;
