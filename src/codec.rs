//! The canonical byte encoding of file metadata: every length and size is a little-endian
//! `u64`, every byte string is preceded by its length.
//!
//! Layout: name length, name (UTF-8), size, number of chunk digests, then each digest as
//! length and bytes.
use crate::storage::{byte_seqs, FileInfo, FileMeta};
use crate::table::slice_to_vec;
use vstd::bytes::{
    lemma_auto_spec_u64_to_from_le_bytes, spec_u64_from_le_bytes, spec_u64_to_le_bytes,
    u64_from_le_bytes, u64_to_le_bytes,
};
use vstd::prelude::*;
use vstd::slice::slice_subrange;
use vstd::utf8::{decode_utf8, encode_utf8, encode_utf8_decode_utf8, encode_utf8_valid_utf8, valid_utf8, decode_utf8_encode_utf8};

verus! {

/// The eight little-endian bytes of `n`.
pub open spec fn le64(n: int) -> Seq<u8> {
    spec_u64_to_le_bytes(n as u64)
}

/// A byte string preceded by its length.
pub open spec fn field(b: Seq<u8>) -> Seq<u8> {
    le64(b.len() as int) + b
}

/// The encoding of a list of digests, each as a field, in order.
pub open spec fn hash_list_bytes(hs: Seq<Seq<u8>>) -> Seq<u8>
    decreases hs.len(),
{
    if hs.len() == 0 {
        Seq::empty()
    } else {
        hash_list_bytes(hs.drop_last()) + field(hs.last())
    }
}

/// Everything before the digests: the name as a field, the size, the number of digests.
pub open spec fn header(name_bytes: Seq<u8>, size: u64, count: int) -> Seq<u8> {
    field(name_bytes) + le64(size as int) + le64(count)
}

/// The canonical encoding of file metadata.
pub open spec fn canonical(m: FileMeta) -> Seq<u8> {
    header(encode_utf8(m.name), m.size, m.chunk_hashes.len() as int) + hash_list_bytes(
        m.chunk_hashes,
    )
}

/// The encoding of a concatenation of digest lists is the concatenation of their encodings.
pub proof fn lemma_hash_list_append(a: Seq<Seq<u8>>, b: Seq<Seq<u8>>)
    ensures
        hash_list_bytes(a + b) == hash_list_bytes(a) + hash_list_bytes(b),
    decreases b.len(),
{
    if b.len() == 0 {
        assert(a + b =~= a);
        assert(hash_list_bytes(a) + hash_list_bytes(b) =~= hash_list_bytes(a));
    } else {
        lemma_hash_list_append(a, b.drop_last());
        assert((a + b).drop_last() =~= a + b.drop_last());
        assert((a + b).last() == b.last());
        assert(hash_list_bytes(a + b) =~= hash_list_bytes(a) + hash_list_bytes(b));
    }
}

/// Each digest takes at least eight bytes of the encoding.
pub proof fn lemma_hash_list_len(hs: Seq<Seq<u8>>)
    ensures
        hash_list_bytes(hs).len() >= 8 * hs.len(),
    decreases hs.len(),
{
    lemma_auto_spec_u64_to_from_le_bytes();
    if hs.len() > 0 {
        lemma_hash_list_len(hs.drop_last());
    }
}

/// Distinct numbers have distinct little-endian encodings.
pub proof fn lemma_le64_injective(a: u64, b: u64)
    requires
        spec_u64_to_le_bytes(a) == spec_u64_to_le_bytes(b),
    ensures
        a == b,
{
    lemma_auto_spec_u64_to_from_le_bytes();
    assert(spec_u64_from_le_bytes(spec_u64_to_le_bytes(a)) == a);
    assert(spec_u64_from_le_bytes(spec_u64_to_le_bytes(b)) == b);
}

/// Appends `b` to `out`.
fn append_bytes(out: &mut Vec<u8>, b: &[u8])
    ensures
        final(out)@ == old(out)@ + b@,
{
    let ghost start = out@;
    let mut i: usize = 0;
    while i < b.len()
        invariant
            0 <= i <= b@.len(),
            out@ == start + b@.subrange(0, i as int),
        decreases b@.len() - i,
    {
        out.push(b[i]);
        i = i + 1;
        assert(out@ =~= start + b@.subrange(0, i as int));
    }
    assert(b@.subrange(0, b@.len() as int) =~= b@);
}

/// Appends `b` as a field: its length, then its bytes.
fn append_field(out: &mut Vec<u8>, b: &[u8])
    ensures
        final(out)@ == old(out)@ + field(b@),
{
    let len = u64_to_le_bytes(b.len() as u64);
    append_bytes(out, len.as_slice());
    append_bytes(out, b);
    assert(final(out)@ =~= old(out)@ + field(b@)) by {
        assert(out@ =~= old(out)@ + le64(b@.len() as int) + b@);
    }
}

/// The canonical encoding of `m`.
pub fn encode_metadata(m: &FileInfo) -> (r: Vec<u8>)
    ensures
        r@ == canonical(m@),
{
    let mut out: Vec<u8> = Vec::new();
    append_field(&mut out, m.name.as_str().as_bytes());
    append_bytes(&mut out, u64_to_le_bytes(m.size).as_slice());
    append_bytes(&mut out, u64_to_le_bytes(m.chunk_hashes.len() as u64).as_slice());
    let ghost head = out@;
    assert(head =~= header(encode_utf8(m.name@), m.size, m.chunk_hashes@.len() as int));
    let mut i: usize = 0;
    while i < m.chunk_hashes.len()
        invariant
            0 <= i <= m.chunk_hashes@.len(),
            out@ == head + hash_list_bytes(byte_seqs(m.chunk_hashes@.subrange(0, i as int))),
        decreases m.chunk_hashes@.len() - i,
    {
        append_field(&mut out, m.chunk_hashes[i].as_slice());
        proof {
            let prev = byte_seqs(m.chunk_hashes@.subrange(0, i as int));
            let next = byte_seqs(m.chunk_hashes@.subrange(0, i + 1));
            assert(next.drop_last() =~= prev);
            assert(next.last() == m.chunk_hashes@[i as int]@);
        }
        i = i + 1;
    }
    assert(m.chunk_hashes@.subrange(0, i as int) =~= m.chunk_hashes@);
    out
}

/// Relies on String::from_utf8: it succeeds exactly on valid UTF-8 and then holds the
/// characters that the bytes encode.
#[verifier::external_body]
fn string_from_utf8(bytes: Vec<u8>) -> (r: Option<String>)
    ensures
        r is Some <==> valid_utf8(bytes@),
        r matches Some(s) ==> s@ == decode_utf8(bytes@),
{
    String::from_utf8(bytes).ok()
}

/// Reads the little-endian `u64` at `pos`.
fn read_u64(bytes: &[u8], pos: usize) -> (r: Option<u64>)
    ensures
        match r {
            Some(x) => pos + 8 <= bytes@.len() && le64(x as int) == bytes@.subrange(
                pos as int,
                pos + 8,
            ),
            None => pos + 8 > bytes@.len(),
        },
{
    if bytes.len() < 8 || pos > bytes.len() - 8 {
        return None;
    }
    let s = slice_subrange(bytes, pos, pos + 8);
    let x = u64_from_le_bytes(s);
    proof {
        lemma_auto_spec_u64_to_from_le_bytes();
        assert(spec_u64_to_le_bytes(spec_u64_from_le_bytes(s@)) == s@);
    }
    Some(x)
}

/// Reads the field at `pos`: its bytes and the position after it.
fn read_field(bytes: &[u8], pos: usize) -> (r: Option<(Vec<u8>, usize)>)
    ensures
        r matches Some((v, next)) ==> next == pos + 8 + v@.len() && next <= bytes@.len()
            && bytes@.subrange(pos as int, next as int) == field(v@),
        forall|b: Seq<u8>|
            pos + 8 + b.len() <= bytes@.len() && #[trigger] field(b) == bytes@.subrange(
                pos as int,
                pos + 8 + b.len(),
            ) ==> (r matches Some((v, next)) && v@ == b),
{
    let total = bytes.len();
    proof {
        lemma_auto_spec_u64_to_from_le_bytes();
    }
    match read_u64(bytes, pos) {
        None => {
            return None;
        },
        Some(n) => {
            let start = pos + 8;
            if n > (total - start) as u64 {
                proof {
                    assert forall|b: Seq<u8>|
                        pos + 8 + b.len() <= bytes@.len() && #[trigger] field(b)
                            == bytes@.subrange(pos as int, pos + 8 + b.len()) implies false by {
                        assert(field(b).subrange(0, 8) =~= le64(b.len() as int));
                        assert(bytes@.subrange(pos as int, pos + 8 + b.len()).subrange(0, 8)
                            =~= bytes@.subrange(pos as int, pos + 8));
                        lemma_le64_injective(b.len() as u64, n);
                    }
                }
                return None;
            }
            let end = start + n as usize;
            let v = slice_to_vec(slice_subrange(bytes, start, end));
            proof {
                assert(bytes@.subrange(pos as int, end as int) =~= field(v@));
                assert forall|b: Seq<u8>|
                    pos + 8 + b.len() <= bytes@.len() && #[trigger] field(b) == bytes@.subrange(
                        pos as int,
                        pos + 8 + b.len(),
                    ) implies v@ == b by {
                    assert(field(b).subrange(0, 8) =~= le64(b.len() as int));
                    assert(bytes@.subrange(pos as int, pos + 8 + b.len()).subrange(0, 8)
                        =~= bytes@.subrange(pos as int, pos + 8));
                    lemma_le64_injective(b.len() as u64, n);
                    assert(b =~= field(b).subrange(8, 8 + b.len() as int));
                    assert(v@ =~= bytes@.subrange(start as int, end as int));
                }
            }
            Some((v, end))
        },
    }
}

/// Splits the encoding of a digest list around its entry `i`.
proof fn lemma_hash_list_split(hs: Seq<Seq<u8>>, i: int)
    requires
        0 <= i < hs.len(),
    ensures
        hash_list_bytes(hs) == hash_list_bytes(hs.subrange(0, i)) + field(hs[i]) + hash_list_bytes(
            hs.subrange(i + 1, hs.len() as int),
        ),
        hash_list_bytes(hs.subrange(0, i + 1)) == hash_list_bytes(hs.subrange(0, i)) + field(hs[i]),
{
    let pre = hs.subrange(0, i + 1);
    let post = hs.subrange(i + 1, hs.len() as int);
    assert(hs =~= pre + post);
    lemma_hash_list_append(pre, post);
    assert(pre.drop_last() =~= hs.subrange(0, i));
}

/// Decodes metadata from its canonical encoding. It succeeds exactly on the encodings of
/// metadata, and then returns the metadata encoded.
pub fn decode_metadata(bytes: &[u8]) -> (r: Option<FileInfo>)
    ensures
        r matches Some(m) ==> canonical(m@) == bytes@,
        forall|m: FileMeta| #[trigger] canonical(m) == bytes@ ==> (r matches Some(d) && d@ == m),
{
    let total = bytes.len();
    proof {
        lemma_auto_spec_u64_to_from_le_bytes();
        assert forall|m: FileMeta| #[trigger] canonical(m) == bytes@ implies bytes@.subrange(
            0,
            8 + encode_utf8(m.name).len() as int,
        ) == field(encode_utf8(m.name)) by {
            assert(bytes@.subrange(0, 8 + encode_utf8(m.name).len() as int) =~= field(
                encode_utf8(m.name),
            ));
        }
    }
    let (name_bytes, p1) = match read_field(bytes, 0) {
        Some(x) => x,
        None => {
            return None;
        },
    };
    let ghost nb = name_bytes@;
    proof {
        assert forall|m: FileMeta| #[trigger] canonical(m) == bytes@ implies encode_utf8(m.name)
            == nb by {
            assert(field(encode_utf8(m.name)) == bytes@.subrange(0, 8 + encode_utf8(m.name).len() as int));
        }
    }
    let name = match string_from_utf8(name_bytes) {
        Some(s) => s,
        None => {
            proof {
                assert forall|m: FileMeta| #[trigger] canonical(m) == bytes@ implies false by {
                    encode_utf8_valid_utf8(m.name);
                }
            }
            return None;
        },
    };
    proof {
        decode_utf8_encode_utf8(nb);
        assert forall|m: FileMeta| #[trigger] canonical(m) == bytes@ implies m.name == name@ by {
            encode_utf8_decode_utf8(m.name);
        }
    }
    let size = match read_u64(bytes, p1) {
        Some(x) => x,
        None => {
            return None;
        },
    };
    let p2 = p1 + 8;
    let count = match read_u64(bytes, p2) {
        Some(x) => x,
        None => {
            return None;
        },
    };
    let p3 = p2 + 8;
    proof {
        assert(bytes@.subrange(0, p3 as int) =~= header(nb, size, count as int));
        assert forall|m: FileMeta| #[trigger] canonical(m) == bytes@ implies m.size == size
            && m.chunk_hashes.len() == count by {
            let h = header(nb, m.size, m.chunk_hashes.len() as int);
            assert(bytes@ =~= h + hash_list_bytes(m.chunk_hashes));
            assert(h.subrange(p1 as int, p2 as int) =~= le64(m.size as int));
            assert(h.subrange(p2 as int, p3 as int) =~= le64(m.chunk_hashes.len() as int));
            assert(bytes@.subrange(p1 as int, p2 as int) =~= h.subrange(p1 as int, p2 as int));
            assert(bytes@.subrange(p2 as int, p3 as int) =~= h.subrange(p2 as int, p3 as int));
            lemma_le64_injective(m.size, size);
            lemma_le64_injective(m.chunk_hashes.len() as u64, count);
            lemma_hash_list_len(m.chunk_hashes);
        }
    }
    let mut hashes: Vec<Vec<u8>> = Vec::new();
    let mut pos: usize = p3;
    let mut i: u64 = 0;
    while i < count
        invariant
            p3 <= pos <= bytes@.len(),
            hashes@.len() == i,
            i <= count,
            bytes@.subrange(0, pos as int) == header(nb, size, count as int) + hash_list_bytes(
                byte_seqs(hashes@),
            ),
            forall|m: FileMeta| #[trigger] canonical(m) == bytes@ ==> {
                &&& m.name == name@
                &&& encode_utf8(m.name) == nb
                &&& m.size == size
                &&& m.chunk_hashes.len() == count
                &&& byte_seqs(hashes@) == m.chunk_hashes.subrange(0, i as int)
            },
        decreases count - i,
    {
        let ghost prefix = bytes@.subrange(0, pos as int);
        proof {
            lemma_auto_spec_u64_to_from_le_bytes();
            assert forall|m: FileMeta| #[trigger] canonical(m) == bytes@ implies {
                &&& pos + 8 + m.chunk_hashes[i as int].len() <= bytes@.len()
                &&& field(m.chunk_hashes[i as int]) == bytes@.subrange(
                    pos as int,
                    pos + 8 + m.chunk_hashes[i as int].len(),
                )
            } by {
                let hs = m.chunk_hashes;
                lemma_hash_list_split(hs, i as int);
                let h = header(nb, size, count as int);
                let rest = hash_list_bytes(hs.subrange(i + 1, hs.len() as int));
                assert(bytes@ =~= prefix + field(hs[i as int]) + rest);
                assert(bytes@.subrange(pos as int, pos + 8 + hs[i as int].len()) =~= field(
                    hs[i as int],
                ));
            }
        }
        let (h, next) = match read_field(bytes, pos) {
            Some(x) => x,
            None => {
                proof {
                    assert forall|m: FileMeta| #[trigger] canonical(m) == bytes@ implies false by {
                        assert(field(m.chunk_hashes[i as int]) == bytes@.subrange(
                            pos as int,
                            pos + 8 + m.chunk_hashes[i as int].len(),
                        ));
                    }
                }
                return None;
            },
        };
        let ghost old_hashes = hashes@;
        hashes.push(h);
        proof {
            assert(byte_seqs(hashes@) =~= byte_seqs(old_hashes).push(h@));
            assert(byte_seqs(hashes@).drop_last() =~= byte_seqs(old_hashes));
            assert(bytes@.subrange(0, next as int) =~= prefix + bytes@.subrange(
                pos as int,
                next as int,
            ));
            assert forall|m: FileMeta| #[trigger] canonical(m) == bytes@ implies byte_seqs(hashes@)
                == m.chunk_hashes.subrange(0, i + 1) by {
                assert(field(m.chunk_hashes[i as int]) == bytes@.subrange(
                    pos as int,
                    pos + 8 + m.chunk_hashes[i as int].len(),
                ));
                assert(h@ == m.chunk_hashes[i as int]);
                assert(byte_seqs(hashes@) =~= m.chunk_hashes.subrange(0, i + 1));
            }
        }
        pos = next;
        i = i + 1;
    }
    if pos != bytes.len() {
        proof {
            assert forall|m: FileMeta| #[trigger] canonical(m) == bytes@ implies false by {
                assert(m.chunk_hashes.subrange(0, i as int) =~= m.chunk_hashes);
                assert(canonical(m) =~= bytes@.subrange(0, pos as int));
            }
        }
        return None;
    }
    let r = FileInfo { name, size, chunk_hashes: hashes };
    proof {
        assert(bytes@.subrange(0, pos as int) =~= bytes@);
        assert(encode_utf8(r@.name) == nb);
        assert(canonical(r@) =~= bytes@);
        assert forall|m: FileMeta| #[trigger] canonical(m) == bytes@ implies r@ == m by {
            assert(m.chunk_hashes.subrange(0, i as int) =~= m.chunk_hashes);
        }
    }
    Some(r)
}

} // verus!
