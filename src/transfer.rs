//! The upload and download workflows, less their network calls: splitting a file into chunks,
//! naming chunks and file by digest, and putting verified chunks back together.
use crate::codec::{canonical, encode_metadata};
use crate::digest::{bytes_equal, sha256, sha256_of};
use crate::storage::{byte_seqs, FileInfo, FileMeta};
use crate::table::slice_to_vec;
use vstd::prelude::*;
use vstd::slice::slice_subrange;

verus! {

/// Size of every chunk but the last of a file.
pub const CHUNK_SIZE: usize = 262144;

/// The chunks of `data`: consecutive pieces of `CHUNK_SIZE` bytes, the last one possibly
/// shorter; none for empty data.
pub open spec fn chunks_of(data: Seq<u8>) -> Seq<Seq<u8>>
    decreases data.len(),
{
    if data.len() == 0 {
        Seq::empty()
    } else if data.len() <= CHUNK_SIZE {
        seq![data]
    } else {
        seq![data.subrange(0, CHUNK_SIZE as int)] + chunks_of(
            data.subrange(CHUNK_SIZE as int, data.len() as int),
        )
    }
}

/// The byte strings of `cs` one after the other.
pub open spec fn concat(cs: Seq<Seq<u8>>) -> Seq<u8>
    decreases cs.len(),
{
    if cs.len() == 0 {
        Seq::empty()
    } else {
        cs[0] + concat(cs.drop_first())
    }
}

/// The digest of each byte string of `cs`.
pub open spec fn digests_of(cs: Seq<Seq<u8>>) -> Seq<Seq<u8>> {
    cs.map_values(|c: Seq<u8>| sha256_of(c))
}

/// The metadata of a file named `name` holding `data`.
pub open spec fn metadata_of(name: Seq<char>, data: Seq<u8>) -> FileMeta {
    FileMeta { name, size: data.len() as u64, chunk_hashes: digests_of(chunks_of(data)) }
}

/// The identifier of a file: the digest of its metadata's canonical encoding.
pub open spec fn file_id_of(m: FileMeta) -> Seq<u8> {
    sha256_of(canonical(m))
}

/// What a download yields from the chunk digests of the metadata and the chunks received:
/// their concatenation when there is one chunk per digest and each chunk has its digest.
pub open spec fn assembled(hashes: Seq<Seq<u8>>, chunks: Seq<Seq<u8>>) -> Option<Seq<u8>> {
    if chunks.len() == hashes.len() && forall|i: int|
        0 <= i < chunks.len() ==> sha256_of(#[trigger] chunks[i]) == hashes[i] {
        Some(concat(chunks))
    } else {
        None
    }
}

/// Putting the chunks of `data` back together gives `data`.
pub proof fn lemma_concat_chunks(data: Seq<u8>)
    ensures
        concat(chunks_of(data)) == data,
    decreases data.len(),
{
    if data.len() == 0 {
    } else if data.len() <= CHUNK_SIZE {
        assert(chunks_of(data).drop_first() =~= Seq::<Seq<u8>>::empty());
        assert(concat(Seq::<Seq<u8>>::empty()) == Seq::<u8>::empty());
        assert(concat(chunks_of(data)) =~= data);
    } else {
        let rest = data.subrange(CHUNK_SIZE as int, data.len() as int);
        lemma_concat_chunks(rest);
        assert(chunks_of(data).drop_first() =~= chunks_of(rest));
        assert(data =~= data.subrange(0, CHUNK_SIZE as int) + rest);
    }
}

/// Every chunk is non-empty and at most `CHUNK_SIZE` bytes long, and every chunk but the last
/// is exactly `CHUNK_SIZE` bytes long.
pub proof fn lemma_chunk_sizes(data: Seq<u8>)
    ensures
        forall|i: int|
            0 <= i < chunks_of(data).len() ==> 0 < #[trigger] chunks_of(data)[i].len() <= CHUNK_SIZE,
        forall|i: int|
            0 <= i < chunks_of(data).len() - 1 ==> #[trigger] chunks_of(data)[i].len() == CHUNK_SIZE,
    decreases data.len(),
{
    if data.len() > CHUNK_SIZE {
        let rest = data.subrange(CHUNK_SIZE as int, data.len() as int);
        lemma_chunk_sizes(rest);
        assert forall|i: int| 0 <= i < chunks_of(data).len() implies 0 < #[trigger] chunks_of(
            data,
        )[i].len() <= CHUNK_SIZE by {
            if i > 0 {
                assert(chunks_of(data)[i] == chunks_of(rest)[i - 1]);
            }
        }
        assert forall|i: int| 0 <= i < chunks_of(data).len() - 1 implies #[trigger] chunks_of(
            data,
        )[i].len() == CHUNK_SIZE by {
            if i > 0 {
                assert(chunks_of(data)[i] == chunks_of(rest)[i - 1]);
            }
        }
    }
}

/// Splits `data` into its chunks.
pub fn split_chunks(data: &[u8]) -> (r: Vec<Vec<u8>>)
    ensures
        byte_seqs(r@) == chunks_of(data@),
{
    let mut out: Vec<Vec<u8>> = Vec::new();
    let mut start: usize = 0;
    let len = data.len();
    assert(data@.subrange(0, len as int) =~= data@);
    while start < len
        invariant
            len == data@.len(),
            0 <= start <= len,
            byte_seqs(out@) + chunks_of(data@.subrange(start as int, len as int)) == chunks_of(
                data@,
            ),
        decreases len - start,
    {
        let ghost rest = data@.subrange(start as int, len as int);
        let end = if len - start > CHUNK_SIZE {
            start + CHUNK_SIZE
        } else {
            len
        };
        let ghost old_out = out@;
        out.push(slice_to_vec(slice_subrange(data, start, end)));
        proof {
            assert(byte_seqs(out@) =~= byte_seqs(old_out).push(data@.subrange(start as int, end as int)));
            if end < len {
                assert(rest.subrange(0, CHUNK_SIZE as int) =~= data@.subrange(start as int, end as int));
                assert(rest.subrange(CHUNK_SIZE as int, rest.len() as int) =~= data@.subrange(
                    end as int,
                    len as int,
                ));
                assert(chunks_of(rest) =~= seq![data@.subrange(start as int, end as int)]
                    + chunks_of(data@.subrange(end as int, len as int)));
            } else {
                assert(rest =~= data@.subrange(start as int, end as int));
                assert(data@.subrange(end as int, len as int) =~= Seq::<u8>::empty());
                assert(chunks_of(data@.subrange(end as int, len as int)) =~= Seq::<Seq<u8>>::empty());
            }
            assert(byte_seqs(out@) + chunks_of(data@.subrange(end as int, len as int)) =~= byte_seqs(
                old_out,
            ) + chunks_of(rest));
        }
        start = end;
    }
    proof {
        assert(data@.subrange(start as int, len as int) =~= Seq::<u8>::empty());
        assert(byte_seqs(out@) + Seq::<Seq<u8>>::empty() =~= byte_seqs(out@));
    }
    out
}

/// The digest of each chunk.
pub fn digest_chunks(chunks: &Vec<Vec<u8>>) -> (r: Vec<Vec<u8>>)
    ensures
        byte_seqs(r@) == digests_of(byte_seqs(chunks@)),
{
    let mut out: Vec<Vec<u8>> = Vec::new();
    let mut i: usize = 0;
    while i < chunks.len()
        invariant
            0 <= i <= chunks@.len(),
            out@.len() == i,
            forall|k: int| 0 <= k < i ==> #[trigger] out@[k]@ == sha256_of(chunks@[k]@),
        decreases chunks@.len() - i,
    {
        let d = sha256(chunks[i].as_slice());
        out.push(slice_to_vec(d.as_slice()));
        i = i + 1;
    }
    assert(byte_seqs(out@) =~= digests_of(byte_seqs(chunks@)));
    out
}

/// Whether `data` has the digest `hash`.
pub fn chunk_matches(hash: &[u8], data: &[u8]) -> (r: bool)
    ensures
        r == (sha256_of(data@) == hash@),
{
    let d = sha256(data);
    bytes_equal(d.as_slice(), hash)
}

/// A file ready to upload: its identifier, its metadata, and its chunks in order.
pub struct UploadPlan {
    pub file_id: [u8; 32],
    pub metadata: FileInfo,
    pub chunks: Vec<Vec<u8>>,
}

/// Splits the file `name` holding `data` into chunks and names chunks and file by digest.
pub fn prepare_upload(name: &str, data: &[u8]) -> (r: UploadPlan)
    ensures
        byte_seqs(r.chunks@) == chunks_of(data@),
        r.metadata@ == metadata_of(name@, data@),
        r.file_id@ == file_id_of(r.metadata@),
{
    let chunks = split_chunks(data);
    let chunk_hashes = digest_chunks(&chunks);
    let metadata = FileInfo { name: name.to_owned(), size: data.len() as u64, chunk_hashes };
    let encoded = encode_metadata(&metadata);
    let file_id = sha256(encoded.as_slice());
    UploadPlan { file_id, metadata, chunks }
}

/// Why a download could not be completed.
pub enum TransferError {
    /// No provider of the file was found.
    NotFound,
    /// The metadata received is not a canonical encoding.
    MalformedMetadata,
    /// The number of chunks received differs from the number of digests.
    ChunkCountMismatch,
    /// The chunk at this position does not have its digest.
    IntegrityError(usize),
}

/// Checks each received chunk against its digest and concatenates them.
pub fn assemble_file(hashes: &Vec<Vec<u8>>, chunks: &Vec<Vec<u8>>) -> (r: Result<Vec<u8>, TransferError>)
    ensures
        match r {
            Ok(v) => assembled(byte_seqs(hashes@), byte_seqs(chunks@)) == Some(v@),
            Err(TransferError::ChunkCountMismatch) => chunks@.len() != hashes@.len(),
            Err(TransferError::IntegrityError(i)) => chunks@.len() == hashes@.len() && i
                < chunks@.len() && sha256_of(chunks@[i as int]@) != hashes@[i as int]@ && forall|
                k: int,
            | 0 <= k < i ==> sha256_of(#[trigger] chunks@[k]@) == hashes@[k]@,
            Err(_) => false,
        },
        r is Ok <==> assembled(byte_seqs(hashes@), byte_seqs(chunks@)) is Some,
{
    if chunks.len() != hashes.len() {
        return Err(TransferError::ChunkCountMismatch);
    }
    let mut out: Vec<u8> = Vec::new();
    let mut i: usize = 0;
    assert(byte_seqs(chunks@).subrange(0, chunks@.len() as int) =~= byte_seqs(chunks@));
    assert(out@ + concat(byte_seqs(chunks@)) =~= concat(byte_seqs(chunks@)));
    while i < chunks.len()
        invariant
            chunks@.len() == hashes@.len(),
            0 <= i <= chunks@.len(),
            forall|k: int| 0 <= k < i ==> sha256_of(#[trigger] chunks@[k]@) == hashes@[k]@,
            out@ + concat(byte_seqs(chunks@).subrange(i as int, chunks@.len() as int)) == concat(
                byte_seqs(chunks@),
            ),
        decreases chunks@.len() - i,
    {
        if !chunk_matches(hashes[i].as_slice(), chunks[i].as_slice()) {
            proof {
                assert(sha256_of(byte_seqs(chunks@)[i as int]) != byte_seqs(hashes@)[i as int]);
            }
            return Err(TransferError::IntegrityError(i));
        }
        let ghost old_out = out@;
        let ghost rest = byte_seqs(chunks@).subrange(i as int, chunks@.len() as int);
        append_all(&mut out, chunks[i].as_slice());
        proof {
            assert(rest.drop_first() =~= byte_seqs(chunks@).subrange(i + 1, chunks@.len() as int));
            assert(out@ + concat(rest.drop_first()) =~= old_out + concat(rest));
        }
        i = i + 1;
    }
    proof {
        assert(byte_seqs(chunks@).subrange(i as int, chunks@.len() as int) =~= Seq::<Seq<u8>>::empty());
        assert(out@ + Seq::<u8>::empty() =~= out@);
        let cs = byte_seqs(chunks@);
        let hs = byte_seqs(hashes@);
        assert forall|k: int| 0 <= k < cs.len() implies sha256_of(#[trigger] cs[k]) == hs[k] by {
            assert(sha256_of(chunks@[k]@) == hashes@[k]@);
        }
    }
    Ok(out)
}

/// Appends `b` to `out`.
fn append_all(out: &mut Vec<u8>, b: &[u8])
    ensures
        final(out)@ == old(out)@ + b@,
{
    let ghost start = out@;
    let mut i: usize = 0;
    while i < b.len()
        invariant
            0 <= i <= b@.len(),
            out@ == start + b@.subrange(0, i as int),
        decreases b@.len() - i,
    {
        out.push(b[i]);
        i = i + 1;
        assert(out@ =~= start + b@.subrange(0, i as int));
    }
    assert(b@.subrange(0, b@.len() as int) =~= b@);
}

/// Content-addressing round trip: the chunks of an upload, received in order, pass the
/// digest checks of its metadata and put the file back together byte for byte.
pub proof fn lemma_round_trip(name: Seq<char>, data: Seq<u8>)
    ensures
        assembled(metadata_of(name, data).chunk_hashes, chunks_of(data)) == Some(data),
{
    let cs = chunks_of(data);
    let hs = metadata_of(name, data).chunk_hashes;
    assert forall|i: int| 0 <= i < cs.len() implies sha256_of(#[trigger] cs[i]) == hs[i] by {}
    lemma_concat_chunks(data);
}

} // verus!
