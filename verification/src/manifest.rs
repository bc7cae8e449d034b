//! The manifest: the catalog of the protected files, their chunks in global
//! order, and the parameters of the parity set.

use vstd::prelude::*;

verus! {

/// One chunk of a file.
#[derive(Clone, Debug)]
pub struct ChunkRef {
    /// Global index of the chunk.
    pub idx: u64,
    /// Where the chunk starts in its file.
    pub file_offset: u64,
    /// Number of bytes of the file in the chunk.
    pub len: u32,
    /// Lowercase hex of the digest of the zero-padded chunk.
    pub hash_hex: String,
}

/// One protected file.
#[derive(Clone, Debug)]
pub struct FileEntry {
    /// Path below the root, with `/` between components.
    pub rel_path: String,
    pub size: u64,
    /// The chunks of the file, in file order.
    pub chunks: Vec<ChunkRef>,
}

/// The catalog of a parity set.
#[derive(Clone, Debug)]
pub struct Manifest {
    pub created_utc: String,
    pub chunk_size: usize,
    pub stripe_k: usize,
    pub parity_pct: u32,
    pub total_bytes: u64,
    pub total_chunks: u64,
    pub files: Vec<FileEntry>,
    pub merkle_root_hex: String,
    pub parity_dir: String,
    pub volumes: usize,
    pub outer_group: usize,
    pub outer_parity: usize,
}

/// What a chunk reference says.
pub struct ChunkModel {
    pub idx: int,
    pub file_offset: int,
    pub len: int,
    pub hash_hex: Seq<char>,
}

/// What a file entry says.
pub struct FileModel {
    pub rel_path: Seq<char>,
    pub size: int,
    pub chunks: Seq<ChunkModel>,
}

/// What a manifest says.
pub struct ManifestModel {
    pub created_utc: Seq<char>,
    pub chunk_size: int,
    pub stripe_k: int,
    pub parity_pct: int,
    pub total_bytes: int,
    pub total_chunks: int,
    pub files: Seq<FileModel>,
    pub merkle_root_hex: Seq<char>,
    pub parity_dir: Seq<char>,
    pub volumes: int,
    pub outer_group: int,
    pub outer_parity: int,
}

impl View for ChunkRef {
    type V = ChunkModel;

    open spec fn view(&self) -> ChunkModel {
        ChunkModel {
            idx: self.idx as int,
            file_offset: self.file_offset as int,
            len: self.len as int,
            hash_hex: self.hash_hex@,
        }
    }
}

impl View for FileEntry {
    type V = FileModel;

    open spec fn view(&self) -> FileModel {
        FileModel {
            rel_path: self.rel_path@,
            size: self.size as int,
            chunks: Seq::new(self.chunks@.len(), |i: int| self.chunks@[i]@),
        }
    }
}

impl View for Manifest {
    type V = ManifestModel;

    open spec fn view(&self) -> ManifestModel {
        ManifestModel {
            created_utc: self.created_utc@,
            chunk_size: self.chunk_size as int,
            stripe_k: self.stripe_k as int,
            parity_pct: self.parity_pct as int,
            total_bytes: self.total_bytes as int,
            total_chunks: self.total_chunks as int,
            files: Seq::new(self.files@.len(), |i: int| self.files@[i]@),
            merkle_root_hex: self.merkle_root_hex@,
            parity_dir: self.parity_dir@,
            volumes: self.volumes as int,
            outer_group: self.outer_group as int,
            outer_parity: self.outer_parity as int,
        }
    }
}

/// Number of parity shards per stripe for K data shards and a parity
/// percentage: none at 0 percent, else the percentage of K rounded to the
/// nearest whole number, halves upward, and at least 1.
pub open spec fn parity_count(k: int, pct: int) -> int {
    if pct <= 0 {
        0
    } else {
        let rounded = (pct * k + 50) / 100;
        if rounded < 1 {
            1
        } else {
            rounded
        }
    }
}

/// Number of stripes of K chunks that `total` chunks take, the last of them
/// possibly short.
pub open spec fn stripe_count(total: int, k: int) -> int {
    if k <= 0 {
        0
    } else {
        (total + k - 1) / k
    }
}

/// Number of parity shards per stripe, or nothing where that number does not
/// fit the machine's word.
pub fn parity_shards(stripe_k: usize, parity_pct: u32) -> (m: Option<usize>)
    ensures
        match m {
            Some(v) => v == parity_count(stripe_k as int, parity_pct as int),
            None => parity_count(stripe_k as int, parity_pct as int) > usize::MAX,
        },
{
    if parity_pct == 0 {
        return Some(0);
    }
    let k: u128 = stripe_k as u128;
    let pct: u128 = parity_pct as u128;
    assert(pct * k <= 0xffff_ffff * 0xffff_ffff_ffff_ffff) by (nonlinear_arith)
        requires
            0 <= pct <= 0xffff_ffff,
            0 <= k <= 0xffff_ffff_ffff_ffff,
    ;
    let rounded: u128 = (pct * k + 50) / 100;
    let m: u128 = if rounded < 1 {
        1
    } else {
        rounded
    };
    if m > usize::MAX as u128 {
        None
    } else {
        Some(m as usize)
    }
}

/// Number of stripes that `total` chunks take with K chunks per stripe.
pub fn stripes_for(total: usize, stripe_k: usize) -> (n: usize)
    requires
        stripe_k > 0,
    ensures
        n == stripe_count(total as int, stripe_k as int),
{
    let full: usize = total / stripe_k;
    let rest: usize = total % stripe_k;
    assert(total == stripe_k * full + rest) by (nonlinear_arith)
        requires
            stripe_k > 0,
            full == total as int / stripe_k as int,
            rest == total as int % stripe_k as int,
    ;
    proof {
        let t = total as int;
        let k = stripe_k as int;
        assert(t == k * (t / k) + t % k) by (nonlinear_arith)
            requires
                k > 0,
        ;
        if t % k == 0 {
            assert((t + k - 1) / k == t / k) by (nonlinear_arith)
                requires
                    k > 0,
                    t >= 0,
                    t % k == 0,
            ;
        } else {
            assert((t + k - 1) / k == t / k + 1) by (nonlinear_arith)
                requires
                    k > 0,
                    t >= 0,
                    t % k != 0,
            ;
        }
    }
    if rest == 0 {
        full
    } else {
        assert(full < total) by (nonlinear_arith)
            requires
                total == stripe_k * full + rest,
                rest > 0,
                stripe_k > 0,
                full >= 0,
        ;
        full + 1
    }
}

/// There is parity exactly where the percentage is not zero; then there is
/// at least one parity shard per stripe, and with a percentage of at most 100
/// no more parity shards than data shards.
pub proof fn lemma_parity_count(k: int, pct: int)
    requires
        0 <= k,
        0 <= pct,
    ensures
        parity_count(k, pct) == 0 <==> pct == 0,
        pct > 0 ==> parity_count(k, pct) >= 1,
        pct <= 100 && k >= 1 ==> parity_count(k, pct) <= k,
{
    if 0 < pct <= 100 && k >= 1 {
        assert((pct * k + 50) / 100 <= k) by (nonlinear_arith)
            requires
                0 <= pct <= 100,
                k >= 1,
        ;
    }
}

} // verus!
