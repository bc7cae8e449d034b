//! BLAKE3 digests of byte strings and zero-padded chunk hashing.

use vstd::prelude::*;
use vstd::slice::slice_subrange;

verus! {

/// A 32-byte digest.
pub type Digest = [u8; 32];

/// The BLAKE3 digest of a byte string, as `blake3::hash` computes it.
pub uninterp spec fn blake3_digest(data: Seq<u8>) -> Seq<u8>;

/// Calls `blake3::hash` and copies the 32 bytes of its result. The digest is a
/// function of the input bytes alone; its value is named, not described.
#[verifier::external_body]
pub(crate) fn blake3_hash(data: &[u8]) -> (h: Digest)
    ensures
        h@ == blake3_digest(data@),
{
    *blake3::hash(data).as_bytes()
}

/// `data` cut or extended with zero bytes to exactly `n` bytes.
pub open spec fn zero_padded(data: Seq<u8>, n: nat) -> Seq<u8> {
    Seq::new(
        n,
        |i: int|
            if i < data.len() {
                data[i]
            } else {
                0u8
            },
    )
}

/// The digest recorded for a chunk: BLAKE3 over the chunk zero-padded to the
/// chunk size.
pub open spec fn chunk_digest(data: Seq<u8>, chunk_size: nat) -> Seq<u8> {
    blake3_digest(zero_padded(data, chunk_size))
}

/// Views of a sequence of digests.
pub open spec fn digests(hs: Seq<Digest>) -> Seq<Seq<u8>> {
    Seq::new(hs.len(), |i: int| hs[i]@)
}

/// A buffer of `chunk_size` bytes that starts with `data` and is zero after it.
pub fn pad_chunk(data: &[u8], chunk_size: usize) -> (buf: Vec<u8>)
    ensures
        buf@ == zero_padded(data@, chunk_size as nat),
{
    let kept: usize = if data.len() < chunk_size {
        data.len()
    } else {
        chunk_size
    };
    let mut buf: Vec<u8> = Vec::new();
    extend_bytes(&mut buf, slice_subrange(data, 0, kept));
    buf.resize(chunk_size, 0u8);
    assert(buf@ =~= zero_padded(data@, chunk_size as nat)) by {
        assert forall|i: int| 0 <= i < chunk_size implies buf@[i] == zero_padded(
            data@,
            chunk_size as nat,
        )[i] by {
            if i < kept {
                assert(buf@.subrange(0, kept as int)[i] == data@[i]);
            }
        }
    }
    buf
}

/// The digest of a chunk under the zero-padding rule.
pub fn hash_chunk(data: &[u8], chunk_size: usize) -> (h: Digest)
    ensures
        h@ == chunk_digest(data@, chunk_size as nat),
{
    let buf = pad_chunk(data, chunk_size);
    blake3_hash(buf.as_slice())
}

/// Appends `src` to `dst`.
pub(crate) fn extend_bytes(dst: &mut Vec<u8>, src: &[u8])
    ensures
        final(dst)@ == old(dst)@ + src@,
{
    let ghost before = dst@;
    dst.extend_from_slice(src);
    assert(dst@ =~= before + src@);
}

} // verus!
