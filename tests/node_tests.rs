use kadstore::codec::decode_metadata;
use kadstore::dht::{Insertion, Peer};
use kadstore::fs::hash_file as sha256;
use kadstore::node::{FindValueStart, Node, RpcError};
use kadstore::server::{FindValueReply, PeerServer};
use kadstore::transfer::{assemble_file, prepare_upload, split_chunks, TransferError, CHUNK_SIZE};

fn server(addr: &str) -> PeerServer {
    PeerServer { node: Node::new(addr) }
}

/// Uploads `data` as `name` to the server's own store.
fn upload_local(s: &mut PeerServer, name: &str, data: &[u8]) -> [u8; 32] {
    let plan = prepare_upload(name, data);
    assert!(s.initiate_upload(&plan.file_id, &plan.metadata).is_ok());
    for (chunk, hash) in plan.chunks.iter().zip(plan.metadata.chunk_hashes.iter()) {
        assert!(s.upload_chunk(hash, chunk).is_ok());
    }
    plan.file_id
}

/// Fetches the file `file_id` from a provider, as a client does.
fn download_from(provider: &PeerServer, file_id: &[u8; 32]) -> Result<Vec<u8>, TransferError> {
    let bytes = provider
        .get_file_metadata(file_id)
        .map_err(|_| TransferError::NotFound)?;
    let meta = decode_metadata(&bytes).ok_or(TransferError::MalformedMetadata)?;
    let mut chunks = Vec::new();
    for h in &meta.chunk_hashes {
        chunks.push(provider.get_chunk(h).map_err(|_| TransferError::NotFound)?);
    }
    assemble_file(&meta.chunk_hashes, &chunks)
}

#[test]
fn node_id_is_digest_of_address() {
    let n = Node::new("http://[::1]:42069");
    assert_eq!(n.id, sha256(b"http://[::1]:42069"));
    assert_eq!(n.address, "http://[::1]:42069");
}

#[test]
fn single_node_upload_download() {
    let mut a = server("http://[::1]:5001");
    let file_id = upload_local(&mut a, "h.txt", b"hello");
    let canonical = bincode::serialize(&("h.txt".to_string(), 5u64, vec![sha256(b"hello").to_vec()])).unwrap();
    assert_eq!(file_id, sha256(&canonical));
    assert_eq!(download_from(&a, &file_id).ok().unwrap(), b"hello".to_vec());
    let files = a.list_files();
    assert_eq!(files.len(), 1);
    assert_eq!(files[0].name, "h.txt");
    assert_eq!(files[0].size, 5);
}

#[test]
fn empty_file_upload() {
    let plan = prepare_upload("empty", b"");
    assert_eq!(plan.metadata.size, 0);
    assert!(plan.metadata.chunk_hashes.is_empty());
    assert!(plan.chunks.is_empty());
    let mut a = server("a");
    let id = upload_local(&mut a, "empty", b"");
    assert_eq!(download_from(&a, &id).ok().unwrap(), Vec::<u8>::new());
}

#[test]
fn chunk_boundaries() {
    for (len, count) in [(CHUNK_SIZE - 1, 1usize), (CHUNK_SIZE, 1), (CHUNK_SIZE + 1, 2)] {
        let data: Vec<u8> = (0..len).map(|i| (i % 251) as u8).collect();
        let chunks = split_chunks(&data);
        assert_eq!(chunks.len(), count);
        assert!(chunks.iter().all(|c| c.len() <= 262144));
        assert_eq!(chunks.concat(), data);
        let mut s = server("b");
        let id = upload_local(&mut s, "f", &data);
        assert_eq!(download_from(&s, &id).ok().unwrap(), data);
    }
    assert_eq!(CHUNK_SIZE, 262144);
}

#[test]
fn integrity_rejection() {
    let mut a = server("a");
    let h = sha256(b"expected");
    let r = a.upload_chunk(&h, b"something else");
    assert!(matches!(r, Err(RpcError::IntegrityError)));
    assert!(matches!(a.get_chunk(&h), Err(RpcError::NotFound)));
    assert!(a.upload_chunk(&h, b"expected").is_ok());
    assert_eq!(a.get_chunk(&h).ok().unwrap(), b"expected".to_vec());
}

#[test]
fn initiate_upload_checks_file_id() {
    let mut a = server("a");
    let plan = prepare_upload("f", b"data");
    let r = a.initiate_upload(&[0u8; 32], &plan.metadata);
    assert!(matches!(r, Err(RpcError::IntegrityError)));
    assert!(matches!(a.get_file_metadata(&[0u8; 32]), Err(RpcError::NotFound)));
    assert!(a.initiate_upload(&plan.file_id, &plan.metadata).is_ok());
    assert!(a.get_file_metadata(&plan.file_id).is_ok());
}

#[test]
fn assemble_rejects_bad_chunks() {
    let hashes = vec![sha256(b"a").to_vec(), sha256(b"b").to_vec()];
    let good = vec![b"a".to_vec(), b"b".to_vec()];
    assert_eq!(assemble_file(&hashes, &good).ok().unwrap(), b"ab".to_vec());
    let bad = vec![b"a".to_vec(), b"c".to_vec()];
    assert!(matches!(assemble_file(&hashes, &bad), Err(TransferError::IntegrityError(1))));
    let short = vec![b"a".to_vec()];
    assert!(matches!(assemble_file(&hashes, &short), Err(TransferError::ChunkCountMismatch)));
}

#[test]
fn find_value_local_hit() {
    let mut a = server("a");
    let key = [7u8; 32];
    assert!(a.store(&key, "provider"));
    match a.node.begin_find_value(&key) {
        FindValueStart::Found(v) => assert_eq!(v, "provider"),
        FindValueStart::Lookup(_) => panic!("a local value needs no lookup"),
    }
    match a.find_value(&key) {
        Ok(FindValueReply::Value(v)) => assert_eq!(v, "provider"),
        _ => panic!("expected the value"),
    }
    match a.node.begin_find_value(&[8u8; 32]) {
        FindValueStart::Lookup(l) => assert!(l.shortlist.is_empty()),
        FindValueStart::Found(_) => panic!("nothing is stored there"),
    }
}

#[test]
fn malformed_identifiers_are_refused() {
    let mut a = server("a");
    assert!(matches!(a.ping(&[1, 2, 3], "x".to_string()), Err(RpcError::InvalidArgument)));
    assert!(matches!(a.find_node(&[0u8; 31]), Err(RpcError::InvalidArgument)));
    assert!(matches!(a.find_value(&[0u8; 5]), Err(RpcError::InvalidArgument)));
}

#[test]
fn ping_inserts_sender() {
    let mut a = server("a");
    let b = Node::new("b");
    let (id, ins) = a.ping(&b.id, "b".to_string()).ok().unwrap();
    assert_eq!(id, a.node.id);
    assert!(matches!(ins, Insertion::Added));
    assert_eq!(a.list_peers(), vec!["b".to_string()]);
    let own = a.node.id;
    let (_, ins) = a.ping(&own, "a".to_string()).ok().unwrap();
    assert!(matches!(ins, Insertion::Ignored));
}

/// Runs a FIND_NODE from `me` over the servers `net`, each queried peer learning `me`.
fn find_node(net: &mut Vec<PeerServer>, me: usize, target: [u8; 32]) -> Vec<Peer> {
    let mut lookup = net[me].node.begin_find_node(&target);
    loop {
        let wave = lookup.next_wave();
        if wave.is_empty() {
            break;
        }
        for p in wave {
            let idx = net.iter().position(|s| s.node.id == p.node_id).unwrap();
            let sender = net[me].node.id;
            let sender_addr = net[me].node.address.clone();
            settle(&mut net[idx], sender, sender_addr);
            let reply = net[idx].find_node(&target).ok().unwrap();
            lookup.absorb(&reply);
        }
    }
    let result = lookup.result();
    for p in &result {
        let (id, addr) = (p.node_id, p.address.clone());
        settle(&mut net[me], id, addr);
    }
    result
}

/// Inserts a peer, every incumbent answering its ping.
fn settle(s: &mut PeerServer, id: [u8; 32], addr: String) {
    if let Ok((_, Insertion::BucketFull(_))) = s.ping(&id, addr.clone()) {
        s.node.settle_full_bucket(Peer { node_id: id, address: addr }, true);
    }
}

#[test]
fn two_node_provider() {
    let mut net = vec![server("http://a"), server("http://b")];
    // B bootstraps from A
    let a_id = net[0].node.id;
    let b_id = net[1].node.id;
    net[0].ping(&b_id, "http://b".to_string()).ok().unwrap();
    net[1].node.learn_peer(&a_id, "http://a".to_string()).ok().unwrap();
    // B uploads a 300 KB file and announces itself
    let data: Vec<u8> = (0..300 * 1024).map(|i| (i * 7 % 256) as u8).collect();
    let file_id = upload_local(&mut net[1], "big.bin", &data);
    let closest = find_node(&mut net, 1, file_id);
    assert!(closest.iter().any(|p| p.node_id == a_id));
    for p in &closest {
        let idx = net.iter().position(|s| s.node.id == p.node_id).unwrap();
        assert!(net[idx].store(&file_id, "http://b"));
    }
    // A resolves the provider and downloads
    let provider = match net[0].node.begin_find_value(&file_id) {
        FindValueStart::Found(v) => v,
        FindValueStart::Lookup(_) => panic!("A holds the provider record"),
    };
    assert_eq!(provider, "http://b");
    let meta = decode_metadata(&net[1].get_file_metadata(&file_id).ok().unwrap()).unwrap();
    assert_eq!(meta.chunk_hashes.len(), 2);
    assert_eq!(download_from(&net[1], &file_id).ok().unwrap(), data);
}

#[test]
fn lookup_convergence() {
    let n = 50;
    let mut net: Vec<PeerServer> = (0..n).map(|i| server(&format!("http://node{}", i))).collect();
    // every node bootstraps from node 0, then looks itself up
    for i in 1..n {
        let (id0, addr0) = (net[0].node.id, net[0].node.address.clone());
        let (id, addr) = (net[i].node.id, net[i].node.address.clone());
        settle(&mut net[0], id, addr);
        settle(&mut net[i], id0, addr0);
        let target = net[i].node.id;
        find_node(&mut net, i, target);
    }
    let a = 1;
    let target = net[a].node.id;
    find_node(&mut net, a, target);
    // every bucket of A that some node of the network falls into holds a peer
    for other in 0..n {
        if other == a {
            continue;
        }
        let b = net[a].node.routing_table.bucket_index(&net[other].node.id);
        assert!(!net[a].node.routing_table.buckets[b].is_empty());
    }
    let known = net[a].list_peers().len();
    assert!(known >= 20);
}
