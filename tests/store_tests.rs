use kadstore::codec::{decode_metadata, encode_metadata};
use kadstore::fs::hash_file as sha256;
use kadstore::fs::{FileInfo as FsFileInfo, CAS};
use kadstore::storage::{FileInfo, Storage};

fn meta(name: &str, size: u64, hashes: Vec<Vec<u8>>) -> FileInfo {
    FileInfo { name: name.to_string(), size, chunk_hashes: hashes }
}

#[test]
fn storage_chunks_round_trip() {
    let mut s = Storage::new();
    assert!(s.get_chunk(b"k").is_none());
    s.store_chunk(b"k", b"bytes");
    assert_eq!(s.get_chunk(b"k").unwrap(), b"bytes".to_vec());
    // storing the same chunk again changes nothing
    s.store_chunk(b"k", b"bytes");
    assert_eq!(s.get_chunk(b"k").unwrap(), b"bytes".to_vec());
    // keyspaces are separate
    assert!(s.get_metadata(b"k").is_none());
    assert!(s.get_value(b"k").is_none());
}

#[test]
fn storage_metadata_and_listing() {
    let mut s = Storage::new();
    let m1 = meta("a.txt", 3, vec![vec![1, 2, 3]]);
    let m2 = meta("b.txt", 0, vec![]);
    s.store_metadata(b"f1", &m1);
    s.store_metadata(b"f2", &m2);
    s.store_metadata(b"f1", &m1);
    let got = s.get_metadata(b"f1").unwrap();
    assert_eq!(got.name, "a.txt");
    assert_eq!(got.size, 3);
    assert_eq!(got.chunk_hashes, vec![vec![1u8, 2, 3]]);
    let all = s.get_all_metadata();
    assert_eq!(all.len(), 2);
    assert_eq!(all[0].name, "a.txt");
    assert_eq!(all[1].name, "b.txt");
}

#[test]
fn storage_values_last_writer_wins() {
    let mut s = Storage::new();
    s.store_value(b"key", "addr1");
    s.store_value(b"key", "addr2");
    assert_eq!(s.get_value(b"key").unwrap(), "addr2");
}

#[test]
fn canonical_encoding_matches_fixed_layout() {
    let m = meta("h.txt", 5, vec![vec![0xaa; 2]]);
    let bytes = encode_metadata(&m);
    let mut expected = Vec::new();
    expected.extend_from_slice(&5u64.to_le_bytes());
    expected.extend_from_slice(b"h.txt");
    expected.extend_from_slice(&5u64.to_le_bytes());
    expected.extend_from_slice(&1u64.to_le_bytes());
    expected.extend_from_slice(&2u64.to_le_bytes());
    expected.extend_from_slice(&[0xaa, 0xaa]);
    assert_eq!(bytes, expected);
    // the same bytes as bincode's default encoding of the three fields
    let tuple = ("h.txt".to_string(), 5u64, vec![vec![0xaau8; 2]]);
    assert_eq!(bytes, bincode::serialize(&tuple).unwrap());
}

#[test]
fn decode_inverts_encode() {
    let m = meta("héllo wörld", 1 << 40, vec![vec![1; 32], vec![2; 32], vec![]]);
    let bytes = encode_metadata(&m);
    let d = decode_metadata(&bytes).unwrap();
    assert_eq!(d.name, m.name);
    assert_eq!(d.size, m.size);
    assert_eq!(d.chunk_hashes, m.chunk_hashes);
}

#[test]
fn decode_rejects_malformed() {
    let m = meta("x", 1, vec![vec![7; 32]]);
    let bytes = encode_metadata(&m);
    assert!(decode_metadata(&bytes[..bytes.len() - 1]).is_none());
    let mut longer = bytes.clone();
    longer.push(0);
    assert!(decode_metadata(&longer).is_none());
    assert!(decode_metadata(&[]).is_none());
    // a name that is not UTF-8
    let mut bad = Vec::new();
    bad.extend_from_slice(&1u64.to_le_bytes());
    bad.push(0xff);
    bad.extend_from_slice(&0u64.to_le_bytes());
    bad.extend_from_slice(&0u64.to_le_bytes());
    assert!(decode_metadata(&bad).is_none());
    // a digest count far beyond the bytes present
    let mut huge = Vec::new();
    huge.extend_from_slice(&0u64.to_le_bytes());
    huge.extend_from_slice(&0u64.to_le_bytes());
    huge.extend_from_slice(&u64::MAX.to_le_bytes());
    assert!(decode_metadata(&huge).is_none());
}

#[test]
fn cas_add_get_remove() {
    let mut cas = CAS::new();
    let h = cas.add(b"hello".to_vec());
    assert_eq!(h, sha256(b"hello"));
    assert_eq!(cas.get(&h).unwrap(), &b"hello".to_vec());
    assert!(cas.get(&[0u8; 32]).is_none());
    cas.remove(h);
    assert!(cas.get(&h).is_none());
    cas.remove(h);
    assert!(cas.get(&h).is_none());
}

#[test]
fn fs_file_info_new_keeps_fields() {
    let f = FsFileInfo::new([1u8; 32], "n".to_string(), 1234, 10, "a".to_string(), 10, vec![[2u8; 32]]);
    assert_eq!(f.filehash, [1u8; 32]);
    assert_eq!(f.name, "n");
    assert_eq!(f.date, 1234);
    assert_eq!(f.size, 10);
    assert_eq!(f.author, "a");
    assert_eq!(f.total_size, 10);
    assert_eq!(f.chunk_hashes, vec![[2u8; 32]]);
}
