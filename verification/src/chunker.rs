//! Splitting a file into fixed-size chunks and hashing each chunk under the
//! zero-padding rule.

use crate::hash::{chunk_digest, hash_chunk, Digest};
use crate::manifest::stripe_count;
use vstd::prelude::*;
use vstd::slice::slice_subrange;

verus! {

/// One chunk of a file as the chunker found it.
#[derive(Clone, Copy, Debug)]
pub struct ChunkPlan {
    pub file_offset: u64,
    pub len: u32,
    pub hash: Digest,
}

/// Number of chunks of a file of `size` bytes: every chunk but the last is
/// full, and an empty file has none.
pub open spec fn chunk_count(size: int, chunk_size: int) -> int {
    stripe_count(size, chunk_size)
}

/// Number of bytes of the file in chunk `ci`: the chunk size, or what is left
/// of the file.
pub open spec fn chunk_len(size: int, chunk_size: int, ci: int) -> int {
    if size - ci * chunk_size < chunk_size {
        size - ci * chunk_size
    } else {
        chunk_size
    }
}

/// The bytes of the file in chunk `ci`.
pub open spec fn chunk_data(data: Seq<u8>, chunk_size: int, ci: int) -> Seq<u8> {
    data.subrange(ci * chunk_size, ci * chunk_size + chunk_len(data.len() as int, chunk_size, ci))
}

/// The plan of chunks is the one of a file with contents `data`.
pub open spec fn plan_of(plan: Seq<ChunkPlan>, data: Seq<u8>, chunk_size: int) -> bool {
    &&& plan.len() == chunk_count(data.len() as int, chunk_size)
    &&& forall|ci: int|
        0 <= ci < plan.len() ==> {
            let c = #[trigger] plan[ci];
            &&& c.file_offset == ci * chunk_size
            &&& c.len == chunk_len(data.len() as int, chunk_size, ci)
            &&& 0 < c.len <= chunk_size
            &&& c.file_offset + c.len <= data.len()
            &&& c.hash@ == chunk_digest(chunk_data(data, chunk_size, ci), chunk_size as nat)
        }
}

/// A file that ends `last` bytes into its chunk number `full` has `full + 1`
/// chunks.
pub(crate) proof fn lemma_chunk_count(full: int, chunk_size: int, last: int)
    requires
        0 <= full,
        0 < last <= chunk_size,
    ensures
        chunk_count(full * chunk_size + last, chunk_size) == full + 1,
        chunk_count(full * chunk_size, chunk_size) == full,
{
    let cs = chunk_size;
    assert((full * cs + last + cs - 1) / cs == full + 1) by (nonlinear_arith)
        requires
            0 <= full,
            0 < last <= cs,
    {
        let x = full * cs + last + cs - 1;
        assert(x == (full + 1) * cs + (last - 1));
        assert(0 <= last - 1 < cs);
    }
    assert((full * cs + cs - 1) / cs == full) by (nonlinear_arith)
        requires
            0 <= full,
            0 < cs,
    {
        let x = full * cs + cs - 1;
        assert(x == full * cs + (cs - 1));
        assert(0 <= cs - 1 < cs);
    }
}

/// Splits a file into chunks of `chunk_size` bytes and hashes each one
/// zero-padded to the chunk size.
pub fn chunk_file(data: &[u8], chunk_size: usize) -> (plan: Vec<ChunkPlan>)
    requires
        0 < chunk_size <= u32::MAX,
    ensures
        plan_of(plan@, data@, chunk_size as int),
{
    let size: usize = data.len();
    let mut plan: Vec<ChunkPlan> = Vec::new();
    let mut off: usize = 0;
    proof {
        assert(0 * chunk_size == 0) by (nonlinear_arith);
        lemma_chunk_count(0, chunk_size as int, chunk_size as int);
        assert(0 * chunk_size as int == 0) by (nonlinear_arith);
    }
    while off < size
        invariant
            0 < chunk_size <= u32::MAX,
            size == data.len(),
            off <= size,
            off < size ==> off == plan.len() * chunk_size,
            off == size ==> plan.len() == chunk_count(size as int, chunk_size as int),
            forall|ci: int|
                0 <= ci < plan.len() ==> {
                    let c = #[trigger] plan[ci];
                    &&& c.file_offset == ci * chunk_size
                    &&& c.len == chunk_len(size as int, chunk_size as int, ci)
                    &&& 0 < c.len <= chunk_size
                    &&& c.file_offset + c.len <= size
                    &&& c.hash@ == chunk_digest(
                        chunk_data(data@, chunk_size as int, ci),
                        chunk_size as nat,
                    )
                },
        decreases size - off,
    {
        let ghost ci = plan.len() as int;
        let left: usize = size - off;
        let len: usize = if left < chunk_size {
            left
        } else {
            chunk_size
        };
        let hash = hash_chunk(slice_subrange(data, off, off + len), chunk_size);
        plan.push(ChunkPlan { file_offset: off as u64, len: len as u32, hash });
        proof {
            assert(len == chunk_len(size as int, chunk_size as int, ci));
            assert(data@.subrange(off as int, off + len) == chunk_data(
                data@,
                chunk_size as int,
                ci,
            ));
            if off + len == size {
                lemma_chunk_count(ci, chunk_size as int, len as int);
            } else {
                assert((ci + 1) * chunk_size == ci * chunk_size + chunk_size)
                    by (nonlinear_arith);
            }
        }
        off = off + len;
    }
    plan
}

} // verus!
