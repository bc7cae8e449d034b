//! The encoder: from the contents of the files to the manifest and the parity
//! volumes.

use crate::chunker::{chunk_count, chunk_data, chunk_file, chunk_len, plan_of, ChunkPlan};
use crate::compute::{ComputeBackend, CpuBackend};
use crate::hash::{chunk_digest, digests, pad_chunk, zero_padded, Digest};
use crate::index::IndexError;
use crate::laws::{lemma_encoded_set_verifies, manifest_of, verifies_clean};
use crate::manifest::{
    parity_count, parity_shards, stripe_count, stripes_for, ChunkModel, ChunkRef, FileEntry,
    FileModel, Manifest, ManifestModel,
};
use crate::merkle::{merkle_root, root};
use crate::order::{assign_order, global_order, lemma_order_is_bijection, total_chunks, valid_chunk};
use crate::path_safety::{check_relative, first_unsafe_in, lemma_first_unsafe_in_stays, PathError};
use crate::placement::{lemma_state_after_ok, place_of, state_after, Placer};
use crate::rs_codec::{rs_parity, shard_views, uniform};
use crate::text::{hex, hex_of};
use crate::volume::OUTER_STRIPE;
use crate::writer::{bodies_end, json_view, shard_bytes, VolumeWriter};
use vstd::prelude::*;
use vstd::slice::slice_subrange;

verus! {

/// The parameters of a parity set.
#[derive(Clone, Copy, Debug)]
pub struct EncoderConfig {
    pub chunk_size: usize,
    pub stripe_k: usize,
    pub parity_pct: u32,
    pub volumes: usize,
    pub outer_group: usize,
    pub outer_parity: usize,
    pub interleave_files: bool,
}

/// Which parameter of a parity set is out of range.
#[derive(Clone, Copy, Debug, PartialEq, Eq, Structural)]
pub enum ConfigError {
    /// The chunk size is zero or above `u32::MAX`.
    ChunkSize,
    /// K is zero.
    StripeK,
    /// The parity percentage is above 100.
    ParityPct,
    /// The number of volumes is zero or above 256.
    Volumes,
    /// K + M is above 256.
    ShardTotal,
    /// M + O is above 256.
    OuterParity,
    /// The capacities are not one per volume.
    Capacities,
}

/// Why a parity set cannot be made.
#[derive(Clone, Copy, Debug, PartialEq, Eq, Structural)]
pub enum EncodeError {
    /// A parameter is out of range.
    BadConfig(ConfigError),
    /// The path of a file is absolute or leaves the root.
    UnsafePath(PathError),
    /// The files do not fit the counters of the format: their sizes add up to
    /// more than `u64::MAX` bytes, or they take more than `u32::MAX` stripes.
    TooLarge,
}

impl EncoderConfig {
    /// M, the number of inner parity shards per stripe.
    pub open spec fn m(&self) -> int {
        parity_count(self.stripe_k as int, self.parity_pct as int)
    }

    /// O, the number of outer parity shards per stripe: none where there is no
    /// inner parity to protect.
    pub open spec fn o(&self) -> int {
        if self.m() > 0 {
            self.outer_parity as int
        } else {
            0
        }
    }

    /// The first parameter that is out of range, in the order chunk size, K,
    /// percentage, volumes, K + M, M + O.
    pub open spec fn config_error(&self) -> Option<ConfigError> {
        if self.chunk_size == 0 || self.chunk_size > u32::MAX {
            Some(ConfigError::ChunkSize)
        } else if self.stripe_k == 0 {
            Some(ConfigError::StripeK)
        } else if self.parity_pct > 100 {
            Some(ConfigError::ParityPct)
        } else if self.volumes == 0 || self.volumes > 256 {
            Some(ConfigError::Volumes)
        } else if self.stripe_k + self.m() > 256 {
            Some(ConfigError::ShardTotal)
        } else if self.m() + self.o() > 256 {
            Some(ConfigError::OuterParity)
        } else {
            None
        }
    }

    /// Checks the parameters and gives M.
    pub fn validate(&self) -> (r: Result<usize, ConfigError>)
        ensures
            match r {
                Ok(m) => self.config_error() is None && m == self.m(),
                Err(e) => self.config_error() == Some(e),
            },
    {
        if self.chunk_size == 0 || self.chunk_size > 0xffff_ffff {
            return Err(ConfigError::ChunkSize);
        }
        if self.stripe_k == 0 {
            return Err(ConfigError::StripeK);
        }
        if self.parity_pct > 100 {
            return Err(ConfigError::ParityPct);
        }
        if self.volumes == 0 || self.volumes > 256 {
            return Err(ConfigError::Volumes);
        }
        if self.stripe_k > 256 {
            assert(self.m() >= 0);
            return Err(ConfigError::ShardTotal);
        }
        let m: usize = match parity_shards(self.stripe_k, self.parity_pct) {
            None => {
                return Err(ConfigError::ShardTotal);
            },
            Some(m) => m,
        };
        if m > 256 - self.stripe_k {
            return Err(ConfigError::ShardTotal);
        }
        if m > 0 && self.outer_parity > 256 - m {
            return Err(ConfigError::OuterParity);
        }
        Ok(m)
    }
}

/// A file to protect: its path below the root and its contents.
#[derive(Debug)]
pub struct SourceFile {
    pub rel_path: String,
    pub data: Vec<u8>,
}

/// The contents of the files.
pub open spec fn file_datas(files: Seq<SourceFile>) -> Seq<Seq<u8>> {
    Seq::new(files.len(), |i: int| files[i].data@)
}

/// The paths of the files.
pub open spec fn file_paths(files: Seq<SourceFile>) -> Seq<Seq<char>> {
    Seq::new(files.len(), |i: int| files[i].rel_path@)
}

/// The number of chunks of each file.
pub open spec fn chunk_counts(datas: Seq<Seq<u8>>, chunk_size: int) -> Seq<usize> {
    Seq::new(datas.len(), |i: int| chunk_count(datas[i].len() as int, chunk_size) as usize)
}

/// Sum of the sizes of the files.
pub open spec fn total_size(datas: Seq<Seq<u8>>) -> int
    decreases datas.len(),
{
    if datas.len() == 0 {
        0
    } else {
        total_size(datas.drop_last()) + datas.last().len()
    }
}

/// The bytes of the chunk with global index `g`.
pub open spec fn global_chunk(
    datas: Seq<Seq<u8>>,
    chunk_size: int,
    order: Seq<(usize, usize)>,
    g: int,
) -> Seq<u8> {
    chunk_data(datas[order[g].0 as int], chunk_size, order[g].1 as int)
}

/// The digests of all chunks, in global order.
pub open spec fn leaves(datas: Seq<Seq<u8>>, chunk_size: int, order: Seq<(usize, usize)>) -> Seq<
    Seq<u8>,
> {
    Seq::new(
        order.len(),
        |g: int| chunk_digest(global_chunk(datas, chunk_size, order, g), chunk_size as nat),
    )
}

/// The global index of chunk `ci` of file `fi`.
pub open spec fn global_index(order: Seq<(usize, usize)>, fi: int, ci: int) -> int {
    order.index_of((fi as usize, ci as usize))
}

/// What the manifest says of chunk `ci` of file `fi`.
pub open spec fn chunk_model(
    data: Seq<u8>,
    chunk_size: int,
    order: Seq<(usize, usize)>,
    fi: int,
    ci: int,
) -> ChunkModel {
    ChunkModel {
        idx: global_index(order, fi, ci),
        file_offset: ci * chunk_size,
        len: chunk_len(data.len() as int, chunk_size, ci),
        hash_hex: hex_of(chunk_digest(chunk_data(data, chunk_size, ci), chunk_size as nat)),
    }
}

/// What the manifest says of file `fi`.
pub open spec fn file_model(
    path: Seq<char>,
    data: Seq<u8>,
    chunk_size: int,
    order: Seq<(usize, usize)>,
    fi: int,
) -> FileModel {
    FileModel {
        rel_path: path,
        size: data.len() as int,
        chunks: Seq::new(
            chunk_count(data.len() as int, chunk_size) as nat,
            |ci: int| chunk_model(data, chunk_size, order, fi, ci),
        ),
    }
}

/// The manifest of a parity set over the given files.
pub open spec fn manifest_model(
    paths: Seq<Seq<char>>,
    datas: Seq<Seq<u8>>,
    cfg: EncoderConfig,
    parity_dir: Seq<char>,
    created_utc: Seq<char>,
) -> ManifestModel {
    let cs = cfg.chunk_size as int;
    let order = global_order(chunk_counts(datas, cs), cfg.interleave_files);
    ManifestModel {
        created_utc,
        chunk_size: cs,
        stripe_k: cfg.stripe_k as int,
        parity_pct: cfg.parity_pct as int,
        total_bytes: total_size(datas),
        total_chunks: order.len() as int,
        files: Seq::new(datas.len(), |fi: int| file_model(paths[fi], datas[fi], cs, order, fi)),
        merkle_root_hex: hex_of(merkle_root(leaves(datas, cs, order))),
        parity_dir,
        volumes: cfg.volumes as int,
        outer_group: cfg.outer_group as int,
        outer_parity: cfg.outer_parity as int,
    }
}

/// The chunk plans are those of the files.
pub open spec fn plans_of(plans: Seq<Vec<ChunkPlan>>, datas: Seq<Seq<u8>>, chunk_size: int) -> bool {
    &&& plans.len() == datas.len()
    &&& forall|fi: int| 0 <= fi < plans.len() ==> plan_of((#[trigger] plans[fi])@, datas[fi], chunk_size)
}

fn plan_files(files: &Vec<SourceFile>, chunk_size: usize) -> (r: (Vec<Vec<ChunkPlan>>, Vec<usize>))
    requires
        0 < chunk_size <= u32::MAX,
    ensures
        plans_of(r.0@, file_datas(files@), chunk_size as int),
        r.1@ == chunk_counts(file_datas(files@), chunk_size as int),
        forall|fi: int| 0 <= fi < files@.len() ==> (#[trigger] r.0@[fi])@.len() == r.1@[fi],
{
    let mut plans: Vec<Vec<ChunkPlan>> = Vec::new();
    let mut counts: Vec<usize> = Vec::new();
    let ghost datas = file_datas(files@);
    let mut fi: usize = 0;
    while fi < files.len()
        invariant
            0 < chunk_size <= u32::MAX,
            fi <= files.len(),
            datas == file_datas(files@),
            plans.len() == fi,
            counts.len() == fi,
            forall|j: int| 0 <= j < fi ==> plan_of((#[trigger] plans@[j])@, datas[j], chunk_size as int),
            forall|j: int|
                0 <= j < fi ==> (#[trigger] counts@[j]) == chunk_count(
                    datas[j].len() as int,
                    chunk_size as int,
                ) && plans@[j]@.len() == counts@[j],
        decreases files.len() - fi,
    {
        let plan = chunk_file(files[fi].data.as_slice(), chunk_size);
        assert(datas[fi as int] == files@[fi as int].data@);
        counts.push(plan.len());
        plans.push(plan);
        fi += 1;
    }
    assert(counts@ =~= chunk_counts(datas, chunk_size as int));
    (plans, counts)
}

fn check_source_paths(files: &Vec<SourceFile>) -> (r: Option<PathError>)
    ensures
        r == first_unsafe_in(file_paths(files@), files@.len() as int),
{
    let ghost paths = file_paths(files@);
    let mut fi: usize = 0;
    while fi < files.len()
        invariant
            fi <= files.len(),
            paths == file_paths(files@),
            first_unsafe_in(paths, fi as int) is None,
        decreases files.len() - fi,
    {
        assert(paths[fi as int] == files@[fi as int].rel_path@);
        match check_relative(files[fi].rel_path.as_str().as_bytes()) {
            Err(e) => {
                proof {
                    lemma_first_unsafe_in_stays(paths, fi + 1, files@.len() as int);
                }
                return Some(e);
            },
            Ok(_) => {},
        }
        fi += 1;
    }
    None
}

fn sum_sizes(files: &Vec<SourceFile>) -> (r: Option<u64>)
    ensures
        match r {
            Some(t) => t == total_size(file_datas(files@)),
            None => total_size(file_datas(files@)) > u64::MAX,
        },
{
    let ghost datas = file_datas(files@);
    let mut total: u64 = 0;
    let mut fi: usize = 0;
    while fi < files.len()
        invariant
            fi <= files.len(),
            datas == file_datas(files@),
            total == total_size(datas.take(fi as int)),
        decreases files.len() - fi,
    {
        let len: u64 = files[fi].data.len() as u64;
        proof {
            assert(datas.take(fi + 1).drop_last() =~= datas.take(fi as int));
            assert(datas.take(fi + 1).last() == files@[fi as int].data@);
        }
        if len > u64::MAX - total {
            proof {
                lemma_total_size_mono(datas, fi + 1);
            }
            return None;
        }
        total = total + len;
        fi += 1;
    }
    assert(datas.take(fi as int) =~= datas);
    Some(total)
}

proof fn lemma_total_size_mono(datas: Seq<Seq<u8>>, n: int)
    requires
        0 <= n <= datas.len(),
    ensures
        0 <= total_size(datas.take(n)) <= total_size(datas),
    decreases datas.len() - n,
{
    lemma_total_size_nonneg(datas.take(n));
    if n == datas.len() {
        assert(datas.take(n) =~= datas);
    } else {
        lemma_total_size_mono(datas, n + 1);
        assert(datas.take(n + 1).drop_last() =~= datas.take(n));
    }
}

proof fn lemma_total_size_nonneg(datas: Seq<Seq<u8>>)
    ensures
        0 <= total_size(datas),
    decreases datas.len(),
{
    if datas.len() > 0 {
        lemma_total_size_nonneg(datas.drop_last());
    }
}

/// The table holds the global index of every chunk of every file.
pub open spec fn index_table_of(table: Seq<Vec<u64>>, counts: Seq<usize>, order: Seq<(usize, usize)>) -> bool {
    &&& table.len() == counts.len()
    &&& forall|fi: int| 0 <= fi < table.len() ==> (#[trigger] table[fi])@.len() == counts[fi]
    &&& forall|fi: int, ci: int|
        valid_chunk(counts, fi, ci) ==> (#[trigger] table[fi]@[ci]) == global_index(order, fi, ci)
}

fn zero_rows(counts: &Vec<usize>) -> (table: Vec<Vec<u64>>)
    ensures
        table@.len() == counts@.len(),
        forall|fi: int| 0 <= fi < table@.len() ==> (#[trigger] table@[fi])@.len() == counts@[fi],
{
    let mut table: Vec<Vec<u64>> = Vec::new();
    let mut fi: usize = 0;
    while fi < counts.len()
        invariant
            fi <= counts.len(),
            table@.len() == fi,
            forall|j: int| 0 <= j < fi ==> (#[trigger] table@[j])@.len() == counts@[j],
        decreases counts.len() - fi,
    {
        let n: usize = counts[fi];
        let mut row: Vec<u64> = Vec::new();
        let mut ci: usize = 0;
        while ci < n
            invariant
                ci <= n,
                row@.len() == ci,
            decreases n - ci,
        {
            row.push(0u64);
            ci += 1;
        }
        table.push(row);
        fi += 1;
    }
    table
}

fn index_table(counts: &Vec<usize>, order: &Vec<(usize, usize)>, interleave: bool) -> (table: Vec<
    Vec<u64>,
>)
    requires
        order@ == global_order(counts@, interleave),
    ensures
        index_table_of(table@, counts@, order@),
{
    let files: usize = counts.len();
    proof {
        lemma_order_is_bijection(counts@, interleave);
    }
    let mut table = zero_rows(counts);
    let mut g: usize = 0;
    while g < order.len()
        invariant
            g <= order.len(),
            order@ == global_order(counts@, interleave),
            table@.len() == counts@.len(),
            forall|fi: int| 0 <= fi < table@.len() ==> (#[trigger] table@[fi])@.len() == counts@[fi],
            forall|h: int|
                0 <= h < g ==> table@[(#[trigger] order@[h]).0 as int]@[order@[h].1 as int] == h,
            forall|h: int|
                0 <= h < order@.len() ==> valid_chunk(
                    counts@,
                    (#[trigger] order@[h]).0 as int,
                    order@[h].1 as int,
                ),
            forall|a: int, b: int|
                0 <= a < b < order@.len() ==> (#[trigger] order@[a]) != (#[trigger] order@[b]),
        decreases order.len() - g,
    {
        let fi: usize = order[g].0;
        let ci: usize = order[g].1;
        let ghost before = table@;
        assert(valid_chunk(counts@, order@[g as int].0 as int, order@[g as int].1 as int));
        let mut row: Vec<u64> = Vec::new();
        std::mem::swap(&mut row, &mut table[fi]);
        row[ci] = g as u64;
        std::mem::swap(&mut row, &mut table[fi]);
        proof {
            assert(table@[fi as int]@ == before[fi as int]@.update(ci as int, g as u64));
            assert forall|h: int| 0 <= h < g + 1 implies table@[(#[trigger] order@[h]).0 as int]@[order@[h].1 as int]
                == h by {
                if h < g {
                    assert(order@[h] != order@[g as int]);
                    assert(valid_chunk(counts@, order@[h].0 as int, order@[h].1 as int));
                    if order@[h].0 == fi {
                        assert(order@[h].1 != ci);
                    } else {
                        assert(table@[order@[h].0 as int] == before[order@[h].0 as int]);
                    }
                }
            }
        }
        g += 1;
    }
    proof {
        lemma_order_is_bijection(counts@, interleave);
        assert forall|fi: int, ci: int| valid_chunk(counts@, fi, ci) implies (
        #[trigger] table@[fi]@[ci]) == global_index(order@, fi, ci) by {
            assert(fi < files && ci <= usize::MAX);
            let h = choose|h: int|
                0 <= h < order@.len() && #[trigger] order@[h] == (fi as usize, ci as usize);
            let x = global_index(order@, fi, ci);
            assert(0 <= x < order@.len() && order@[x] == (fi as usize, ci as usize));
            if x < h {
                assert(order@[x] != order@[h]);
            } else if h < x {
                assert(order@[h] != order@[x]);
            }
        }
    }
    table
}

fn leaf_digests(plans: &Vec<Vec<ChunkPlan>>, order: &Vec<(usize, usize)>, Ghost(datas): Ghost<
    Seq<Seq<u8>>,
>, Ghost(chunk_size): Ghost<int>, Ghost(counts): Ghost<Seq<usize>>) -> (out: Vec<Digest>)
    requires
        plans_of(plans@, datas, chunk_size),
        counts.len() == plans@.len(),
        forall|fi: int| 0 <= fi < plans@.len() ==> (#[trigger] plans@[fi])@.len() == counts[fi],
        forall|h: int|
            0 <= h < order@.len() ==> valid_chunk(
                counts,
                (#[trigger] order@[h]).0 as int,
                order@[h].1 as int,
            ),
    ensures
        digests(out@) == leaves(datas, chunk_size, order@),
{
    let mut out: Vec<Digest> = Vec::new();
    let mut g: usize = 0;
    while g < order.len()
        invariant
            g <= order.len(),
            plans_of(plans@, datas, chunk_size),
            counts.len() == plans@.len(),
            forall|fi: int| 0 <= fi < plans@.len() ==> (#[trigger] plans@[fi])@.len() == counts[fi],
            forall|h: int|
                0 <= h < order@.len() ==> valid_chunk(
                    counts,
                    (#[trigger] order@[h]).0 as int,
                    order@[h].1 as int,
                ),
            out@.len() == g,
            forall|h: int|
                0 <= h < g ==> (#[trigger] out@[h])@ == leaves(datas, chunk_size, order@)[h],
        decreases order.len() - g,
    {
        let fi: usize = order[g].0;
        let ci: usize = order[g].1;
        assert(valid_chunk(counts, order@[g as int].0 as int, order@[g as int].1 as int));
        assert(plan_of(plans@[fi as int]@, datas[fi as int], chunk_size));
        let d: Digest = plans[fi][ci].hash;
        out.push(d);
        g += 1;
    }
    assert(digests(out@) =~= leaves(datas, chunk_size, order@));
    out
}

fn file_entry(
    file: &SourceFile,
    plan: &Vec<ChunkPlan>,
    row: &Vec<u64>,
    Ghost(chunk_size): Ghost<int>,
    Ghost(order): Ghost<Seq<(usize, usize)>>,
    Ghost(fi): Ghost<int>,
) -> (fe: FileEntry)
    requires
        plan_of(plan@, file.data@, chunk_size),
        row@.len() == plan@.len(),
        forall|ci: int| 0 <= ci < row@.len() ==> (#[trigger] row@[ci]) == global_index(order, fi, ci),
    ensures
        fe@ == file_model(file.rel_path@, file.data@, chunk_size, order, fi),
{
    let mut chunks: Vec<ChunkRef> = Vec::new();
    let mut ci: usize = 0;
    while ci < plan.len()
        invariant
            ci <= plan.len(),
            plan_of(plan@, file.data@, chunk_size),
            row@.len() == plan@.len(),
            forall|c: int| 0 <= c < row@.len() ==> (#[trigger] row@[c]) == global_index(order, fi, c),
            chunks@.len() == ci,
            forall|c: int|
                0 <= c < ci ==> (#[trigger] chunks@[c])@ == chunk_model(
                    file.data@,
                    chunk_size,
                    order,
                    fi,
                    c,
                ),
        decreases plan.len() - ci,
    {
        let p: ChunkPlan = plan[ci];
        let c = ChunkRef {
            idx: row[ci],
            file_offset: p.file_offset,
            len: p.len,
            hash_hex: hex(p.hash.as_slice()),
        };
        chunks.push(c);
        ci += 1;
    }
    let fe = FileEntry {
        rel_path: file.rel_path.clone(),
        size: file.data.len() as u64,
        chunks,
    };
    assert(fe@.chunks =~= file_model(file.rel_path@, file.data@, chunk_size, order, fi).chunks);
    fe
}

/// A parity shard as it is stored: what its entry says, and its bytes.
pub struct ShardModel {
    pub stripe: u32,
    pub parity_idx: u16,
    pub outer_for_stripe: Option<u32>,
    pub bytes: Seq<u8>,
}

/// Number of the first `n` shards of the stream that volume `v` takes.
pub open spec fn placed_on(capacities: Seq<usize>, n: nat, v: int) -> nat
    decreases n,
{
    if n == 0 {
        0
    } else {
        placed_on(capacities, (n - 1) as nat, v) + if place_of(capacities, (n - 1) as nat) == v {
            1nat
        } else {
            0nat
        }
    }
}

/// Entry `j` of the volume describes the shard `sh`, and the bytes it points
/// at are those of `sh`.
pub open spec fn holds_shard(w: VolumeWriter, j: int, sh: ShardModel) -> bool {
    &&& 0 <= j < w.entries@.len()
    &&& w.entries@[j].stripe == sh.stripe
    &&& w.entries@[j].parity_idx == sh.parity_idx
    &&& w.entries@[j].outer_for_stripe == sh.outer_for_stripe
    &&& w.entries@[j].len == sh.bytes.len()
    &&& shard_bytes(w.image@, w.entries@[j]) == sh.bytes
}

/// The volumes hold exactly the shards of `stream`, each on the volume that
/// the placement gives it, in the order of the stream.
pub open spec fn stored(
    writers: Seq<VolumeWriter>,
    k: u32,
    m: u32,
    capacities: Seq<usize>,
    stream: Seq<ShardModel>,
) -> bool {
    &&& writers.len() == capacities.len()
    &&& forall|v: int|
        0 <= v < writers.len() ==> {
            let w = #[trigger] writers[v];
            &&& w.wf()
            &&& w.k == k
            &&& w.m == m
            &&& w.entries@.len() == placed_on(capacities, stream.len(), v)
        }
    &&& forall|n: int|
        0 <= n < stream.len() ==> holds_shard(
            writers[place_of(capacities, n as nat)],
            placed_on(capacities, n as nat, place_of(capacities, n as nat)) as int,
            #[trigger] stream[n],
        )
}

/// The data shards of stripe `s`: the chunks with global indices from
/// `s * k` on, zero-padded to the chunk size, and zero shards where the
/// chunks run out.
pub open spec fn stripe_data(
    datas: Seq<Seq<u8>>,
    chunk_size: int,
    order: Seq<(usize, usize)>,
    k: int,
    s: int,
) -> Seq<Seq<u8>> {
    Seq::new(
        k as nat,
        |i: int|
            if s * k + i < order.len() {
                zero_padded(global_chunk(datas, chunk_size, order, s * k + i), chunk_size as nat)
            } else {
                zero_padded(Seq::empty(), chunk_size as nat)
            },
    )
}

/// The inner parity shards of stripe `s`.
pub open spec fn inner_shards(
    datas: Seq<Seq<u8>>,
    chunk_size: int,
    order: Seq<(usize, usize)>,
    k: int,
    m: int,
    s: int,
) -> Seq<Seq<u8>> {
    rs_parity(k, m, stripe_data(datas, chunk_size, order, k, s))
}

/// The outer parity shards of stripe `s`: the parity of its inner parity.
pub open spec fn outer_shards(
    datas: Seq<Seq<u8>>,
    chunk_size: int,
    order: Seq<(usize, usize)>,
    k: int,
    m: int,
    o: int,
    s: int,
) -> Seq<Seq<u8>> {
    rs_parity(m, o, inner_shards(datas, chunk_size, order, k, m, s))
}

/// The parity of stripe `s` has the shape that the codec gives it: M inner
/// shards of the chunk size and, where there is outer parity, O outer shards
/// of the chunk size.
pub open spec fn stripe_shaped(
    datas: Seq<Seq<u8>>,
    chunk_size: int,
    order: Seq<(usize, usize)>,
    k: int,
    m: int,
    o: int,
    s: int,
) -> bool {
    let inner = inner_shards(datas, chunk_size, order, k, m, s);
    let outer = outer_shards(datas, chunk_size, order, k, m, o, s);
    &&& inner.len() == m
    &&& forall|r: int| 0 <= r < m ==> (#[trigger] inner[r]).len() == chunk_size
    &&& o > 0 ==> outer.len() == o && forall|r: int|
        0 <= r < o ==> (#[trigger] outer[r]).len() == chunk_size
}

/// Inner parity shards of stripe `s` as they are stored.
pub open spec fn inner_models(parity: Seq<Seq<u8>>, s: int) -> Seq<ShardModel> {
    Seq::new(
        parity.len(),
        |pi: int|
            ShardModel {
                stripe: s as u32,
                parity_idx: pi as u16,
                outer_for_stripe: None,
                bytes: parity[pi],
            },
    )
}

/// Outer parity shards of stripe `s` as they are stored: under the sentinel
/// stripe value, with the stripe number in the outer field.
pub open spec fn outer_models(parity: Seq<Seq<u8>>, s: int) -> Seq<ShardModel> {
    Seq::new(
        parity.len(),
        |oi: int|
            ShardModel {
                stripe: OUTER_STRIPE,
                parity_idx: oi as u16,
                outer_for_stripe: Some(s as u32),
                bytes: parity[oi],
            },
    )
}

/// The shards that stripe `s` adds to the stream: its inner parity, then its
/// outer parity if there is any.
pub open spec fn stripe_stream(
    datas: Seq<Seq<u8>>,
    chunk_size: int,
    order: Seq<(usize, usize)>,
    k: int,
    m: int,
    o: int,
    s: int,
) -> Seq<ShardModel> {
    inner_models(inner_shards(datas, chunk_size, order, k, m, s), s) + if o > 0 {
        outer_models(outer_shards(datas, chunk_size, order, k, m, o, s), s)
    } else {
        Seq::empty()
    }
}

/// The stream of shards of the first `stripes` stripes.
pub open spec fn stream_upto(
    datas: Seq<Seq<u8>>,
    chunk_size: int,
    order: Seq<(usize, usize)>,
    k: int,
    m: int,
    o: int,
    stripes: int,
) -> Seq<ShardModel>
    decreases stripes,
{
    if stripes <= 0 {
        Seq::empty()
    } else {
        stream_upto(datas, chunk_size, order, k, m, o, stripes - 1) + stripe_stream(
            datas,
            chunk_size,
            order,
            k,
            m,
            o,
            stripes - 1,
        )
    }
}

fn emit_shard(
    writers: &mut Vec<VolumeWriter>,
    placer: &mut Placer,
    stripe: u32,
    parity_idx: u16,
    outer_for_stripe: Option<u32>,
    bytes: &[u8],
    Ghost(k): Ghost<u32>,
    Ghost(m): Ghost<u32>,
    Ghost(capacities): Ghost<Seq<usize>>,
    Ghost(stream): Ghost<Seq<ShardModel>>,
)
    requires
        stored(old(writers)@, k, m, capacities, stream),
        capacities.len() > 0,
        old(placer).wf(),
        old(placer).state() == state_after(capacities, stream.len()),
        bytes@.len() <= u32::MAX,
    ensures
        stored(
            final(writers)@,
            k,
            m,
            capacities,
            stream.push(ShardModel { stripe, parity_idx, outer_for_stripe, bytes: bytes@ }),
        ),
        final(placer).wf(),
        final(placer).state() == state_after(capacities, stream.len() + 1),
{
    let ghost n = stream.len();
    let ghost before = writers@;
    proof {
        lemma_state_after_ok(capacities, n);
    }
    let v: usize = placer.place();
    assert(v == place_of(capacities, n));
    let res = writers[v].append_shard(stripe, parity_idx, outer_for_stripe, bytes);
    proof {
        let sh = ShardModel { stripe, parity_idx, outer_for_stripe, bytes: bytes@ };
        let next = stream.push(sh);
        let after = writers@;
        assert(res is Ok);
        assert forall|x: int| 0 <= x < after.len() implies {
            let w = #[trigger] after[x];
            &&& w.wf()
            &&& w.k == k
            &&& w.m == m
            &&& w.entries@.len() == placed_on(capacities, next.len(), x)
        } by {
            if x != v {
                assert(after[x] == before[x]);
            }
        }
        assert forall|i: int| 0 <= i < next.len() implies holds_shard(
            after[place_of(capacities, i as nat)],
            placed_on(capacities, i as nat, place_of(capacities, i as nat)) as int,
            #[trigger] next[i],
        ) by {
            let p = place_of(capacities, i as nat);
            let j = placed_on(capacities, i as nat, p) as int;
            if i < n {
                assert(next[i] == stream[i]);
                assert(holds_shard(before[p], j, stream[i]));
                if p == v {
                    let e = before[p].entries@[j];
                    assert(after[p].entries@.drop_last()[j] == e);
                    assert(after[p].entries@[j] == e);
                    assert(e.offset + e.len <= bodies_end(before[p].entries@));
                    assert(shard_bytes(after[p].image@, e) =~= shard_bytes(before[p].image@, e));
                } else {
                    lemma_state_after_ok(capacities, i as nat);
                    assert(after[p] == before[p]);
                }
            } else {
                assert(next[i] == sh);
                assert(j == before[v as int].entries@.len());
            }
        }
    }
}

fn emit_batch(
    writers: &mut Vec<VolumeWriter>,
    placer: &mut Placer,
    shards: &Vec<Vec<u8>>,
    stripe: u32,
    outer: bool,
    Ghost(k): Ghost<u32>,
    Ghost(m): Ghost<u32>,
    Ghost(capacities): Ghost<Seq<usize>>,
    Ghost(stream): Ghost<Seq<ShardModel>>,
)
    requires
        stored(old(writers)@, k, m, capacities, stream),
        capacities.len() > 0,
        old(placer).wf(),
        old(placer).state() == state_after(capacities, stream.len()),
        shards@.len() <= 256,
        forall|i: int| 0 <= i < shards@.len() ==> (#[trigger] shards@[i])@.len() <= u32::MAX,
    ensures
        stored(
            final(writers)@,
            k,
            m,
            capacities,
            stream + if outer {
                outer_models(shard_views(shards@), stripe as int)
            } else {
                inner_models(shard_views(shards@), stripe as int)
            },
        ),
        final(placer).wf(),
        final(placer).state() == state_after(capacities, stream.len() + shards@.len()),
{
    let ghost models = if outer {
        outer_models(shard_views(shards@), stripe as int)
    } else {
        inner_models(shard_views(shards@), stripe as int)
    };
    let mut i: usize = 0;
    assert(stream + models.take(0) =~= stream);
    while i < shards.len()
        invariant
            i <= shards.len(),
            shards@.len() <= 256,
            capacities.len() > 0,
            forall|j: int| 0 <= j < shards@.len() ==> (#[trigger] shards@[j])@.len() <= u32::MAX,
            models == (if outer {
                outer_models(shard_views(shards@), stripe as int)
            } else {
                inner_models(shard_views(shards@), stripe as int)
            }),
            stored(writers@, k, m, capacities, stream + models.take(i as int)),
            placer.wf(),
            placer.state() == state_after(capacities, (stream.len() + i) as nat),
        decreases shards.len() - i,
    {
        let ghost sofar = stream + models.take(i as int);
        if outer {
            emit_shard(
                writers,
                placer,
                OUTER_STRIPE,
                i as u16,
                Some(stripe),
                shards[i].as_slice(),
                Ghost(k),
                Ghost(m),
                Ghost(capacities),
                Ghost(sofar),
            );
        } else {
            emit_shard(
                writers,
                placer,
                stripe,
                i as u16,
                None,
                shards[i].as_slice(),
                Ghost(k),
                Ghost(m),
                Ghost(capacities),
                Ghost(sofar),
            );
        }
        proof {
            assert(sofar.push(models[i as int]) =~= stream + models.take(i + 1));
        }
        i += 1;
    }
    assert(models.take(i as int) =~= models);
}

fn zero_shards(n: usize, len: usize) -> (v: Vec<Vec<u8>>)
    ensures
        v@.len() == n,
        forall|i: int| 0 <= i < n ==> (#[trigger] v@[i])@ == zero_padded(Seq::empty(), len as nat),
{
    let mut v: Vec<Vec<u8>> = Vec::new();
    let empty: Vec<u8> = Vec::new();
    let mut i: usize = 0;
    while i < n
        invariant
            i <= n,
            empty@.len() == 0,
            v@.len() == i,
            forall|j: int|
                0 <= j < i ==> (#[trigger] v@[j])@ == zero_padded(Seq::empty(), len as nat),
        decreases n - i,
    {
        let z = pad_chunk(empty.as_slice(), len);
        assert(empty@ =~= Seq::<u8>::empty());
        v.push(z);
        i += 1;
    }
    v
}

/// The first chunk of a stripe lies within the chunks.
pub(crate) proof fn lemma_stripe_start(total: int, k: int, s: int)
    requires
        0 <= total,
        0 < k,
        0 <= s < stripe_count(total, k),
    ensures
        0 <= s * k < total,
{
    let x = total + k - 1;
    let q = x / k;
    vstd::arithmetic::div_mod::lemma_fundamental_div_mod(x, k);
    vstd::arithmetic::div_mod::lemma_mod_bound(x, k);
    assert(s * k <= (q - 1) * k) by (nonlinear_arith)
        requires
            0 <= s <= q - 1,
            0 < k,
    ;
    assert((q - 1) * k == k * q - k) by (nonlinear_arith);
    assert(0 <= s * k) by (nonlinear_arith)
        requires
            0 <= s,
            0 < k,
    ;
}

fn stripe_shards(
    files: &Vec<SourceFile>,
    plans: &Vec<Vec<ChunkPlan>>,
    order: &Vec<(usize, usize)>,
    chunk_size: usize,
    k: usize,
    base: usize,
    Ghost(s): Ghost<int>,
    Ghost(counts): Ghost<Seq<usize>>,
) -> (data: Vec<Vec<u8>>)
    requires
        0 < chunk_size <= u32::MAX,
        0 < k <= 256,
        base == s * k,
        base <= order@.len(),
        plans_of(plans@, file_datas(files@), chunk_size as int),
        counts.len() == plans@.len(),
        forall|fi: int| 0 <= fi < plans@.len() ==> (#[trigger] plans@[fi])@.len() == counts[fi],
        forall|h: int|
            0 <= h < order@.len() ==> valid_chunk(
                counts,
                (#[trigger] order@[h]).0 as int,
                order@[h].1 as int,
            ),
    ensures
        data@.len() == k,
        shard_views(data@) == stripe_data(file_datas(files@), chunk_size as int, order@, k as int, s),
        forall|i: int| 0 <= i < k ==> (#[trigger] data@[i])@.len() == chunk_size,
{
    let ghost datas = file_datas(files@);
    let ghost want = stripe_data(datas, chunk_size as int, order@, k as int, s);
    let mut data: Vec<Vec<u8>> = Vec::new();
    let empty: Vec<u8> = Vec::new();
    let total: usize = order.len();
    let mut i: usize = 0;
    while i < k
        invariant
            i <= k,
            0 < chunk_size <= u32::MAX,
            0 < k <= 256,
            base == s * k,
            base <= total,
            total == order@.len(),
            empty@.len() == 0,
            datas == file_datas(files@),
            want == stripe_data(datas, chunk_size as int, order@, k as int, s),
            plans_of(plans@, datas, chunk_size as int),
            counts.len() == plans@.len(),
            forall|fi: int| 0 <= fi < plans@.len() ==> (#[trigger] plans@[fi])@.len() == counts[fi],
            forall|h: int|
                0 <= h < order@.len() ==> valid_chunk(
                    counts,
                    (#[trigger] order@[h]).0 as int,
                    order@[h].1 as int,
                ),
            data@.len() == i,
            forall|j: int| 0 <= j < i ==> (#[trigger] data@[j])@ == want[j],
            forall|j: int| 0 <= j < i ==> (#[trigger] data@[j])@.len() == chunk_size,
        decreases k - i,
    {
        let shard = if i < total - base {
            let g: usize = base + i;
            let fi: usize = order[g].0;
            let ci: usize = order[g].1;
            assert(valid_chunk(counts, order@[g as int].0 as int, order@[g as int].1 as int));
            assert(plan_of(plans@[fi as int]@, datas[fi as int], chunk_size as int));
            assert(datas[fi as int] == files@[fi as int].data@);
            let p: ChunkPlan = plans[fi][ci];
            let fdata = files[fi].data.as_slice();
            let dlen: usize = fdata.len();
            proof {
                let pl = plans@[fi as int]@;
                assert(p == pl[ci as int]);
                assert(pl[ci as int].file_offset + pl[ci as int].len <= datas[fi as int].len());
                assert(p.file_offset == ci * chunk_size);
                assert(fdata@ == datas[fi as int]);
                assert(p.file_offset + p.len <= dlen);
            }
            let off: usize = p.file_offset as usize;
            let chunk = slice_subrange(fdata, off, off + p.len as usize);
            proof {
                assert(order@[g as int] == (fi, ci));
                assert(p.len == chunk_len(dlen as int, chunk_size as int, ci as int));
                assert(chunk@ == chunk_data(datas[fi as int], chunk_size as int, ci as int));
            }
            assert(chunk@ == global_chunk(datas, chunk_size as int, order@, g as int));
            pad_chunk(chunk, chunk_size)
        } else {
            assert(empty@ =~= Seq::<u8>::empty());
            pad_chunk(empty.as_slice(), chunk_size)
        };
        assert(shard@ == want[i as int]);
        data.push(shard);
        i += 1;
    }
    assert(shard_views(data@) =~= want);
    data
}

fn copy_counts(src: &Vec<usize>) -> (dst: Vec<usize>)
    ensures
        dst@ == src@,
{
    let mut dst: Vec<usize> = Vec::new();
    let mut i: usize = 0;
    while i < src.len()
        invariant
            i <= src.len(),
            dst@ == src@.take(i as int),
        decreases src.len() - i,
    {
        dst.push(src[i]);
        assert(dst@ =~= src@.take(i + 1));
        i += 1;
    }
    assert(src@.take(i as int) =~= src@);
    dst
}

fn new_writers(volumes: usize, k: u32, m: u32, Ghost(capacities): Ghost<Seq<usize>>) -> (writers:
    Vec<VolumeWriter>)
    requires
        capacities.len() == volumes,
    ensures
        stored(writers@, k, m, capacities, Seq::empty()),
{
    let mut writers: Vec<VolumeWriter> = Vec::new();
    let mut v: usize = 0;
    while v < volumes
        invariant
            v <= volumes,
            writers@.len() == v,
            forall|x: int|
                0 <= x < v ==> {
                    let w = #[trigger] writers@[x];
                    &&& w.wf()
                    &&& w.k == k
                    &&& w.m == m
                    &&& w.entries@.len() == 0
                },
        decreases volumes - v,
    {
        writers.push(VolumeWriter::new(k, m));
        v += 1;
    }
    writers
}

fn build_manifest(
    files: &Vec<SourceFile>,
    plans: &Vec<Vec<ChunkPlan>>,
    counts: &Vec<usize>,
    order: &Vec<(usize, usize)>,
    cfg: &EncoderConfig,
    total_bytes: u64,
    parity_dir: &str,
    created_utc: &str,
) -> (mf: Manifest)
    requires
        0 < cfg.chunk_size <= u32::MAX,
        plans_of(plans@, file_datas(files@), cfg.chunk_size as int),
        counts@ == chunk_counts(file_datas(files@), cfg.chunk_size as int),
        forall|fi: int| 0 <= fi < files@.len() ==> (#[trigger] plans@[fi])@.len() == counts@[fi],
        order@ == global_order(counts@, cfg.interleave_files),
        total_bytes == total_size(file_datas(files@)),
    ensures
        mf@ == manifest_model(
            file_paths(files@),
            file_datas(files@),
            *cfg,
            parity_dir@,
            created_utc@,
        ),
{
    let ghost datas = file_datas(files@);
    let ghost cs = cfg.chunk_size as int;
    let n_files: usize = counts.len();
    proof {
        lemma_order_is_bijection(counts@, cfg.interleave_files);
    }
    let table = index_table(counts, order, cfg.interleave_files);
    let hashes = leaf_digests(plans, order, Ghost(datas), Ghost(cs), Ghost(counts@));
    let merkle = root(hashes.as_slice());
    let mut entries: Vec<FileEntry> = Vec::new();
    let mut fi: usize = 0;
    while fi < files.len()
        invariant
            fi <= files.len(),
            files@.len() == counts@.len(),
            datas == file_datas(files@),
            cs == cfg.chunk_size as int,
            plans_of(plans@, datas, cs),
            counts@ == chunk_counts(datas, cs),
            forall|j: int| 0 <= j < files@.len() ==> (#[trigger] plans@[j])@.len() == counts@[j],
            index_table_of(table@, counts@, order@),
            entries@.len() == fi,
            forall|j: int|
                0 <= j < fi ==> (#[trigger] entries@[j])@ == file_model(
                    files@[j].rel_path@,
                    datas[j],
                    cs,
                    order@,
                    j,
                ),
        decreases files.len() - fi,
    {
        assert(datas[fi as int] == files@[fi as int].data@);
        assert(plan_of(plans@[fi as int]@, datas[fi as int], cs));
        assert forall|ci: int| 0 <= ci < table@[fi as int]@.len() implies (
        #[trigger] table@[fi as int]@[ci]) == global_index(order@, fi as int, ci) by {
            assert(valid_chunk(counts@, fi as int, ci));
        }
        let fe = file_entry(
            &files[fi],
            &plans[fi],
            &table[fi],
            Ghost(cs),
            Ghost(order@),
            Ghost(fi as int),
        );
        entries.push(fe);
        fi += 1;
    }
    let mf = Manifest {
        created_utc: created_utc.to_owned(),
        chunk_size: cfg.chunk_size,
        stripe_k: cfg.stripe_k,
        parity_pct: cfg.parity_pct,
        total_bytes,
        total_chunks: order.len() as u64,
        files: entries,
        merkle_root_hex: hex(merkle.as_slice()),
        parity_dir: parity_dir.to_owned(),
        volumes: cfg.volumes,
        outer_group: cfg.outer_group,
        outer_parity: cfg.outer_parity,
    };
    proof {
        let want = manifest_model(file_paths(files@), datas, *cfg, parity_dir@, created_utc@);
        assert(mf@.files =~= want.files);
    }
    mf
}

/// What the encoder hands back: the manifest, and the volumes with all their
/// shards, not yet finished.
pub struct Encoded {
    pub manifest: Manifest,
    pub volumes: Vec<VolumeWriter>,
}

/// The encoder.
pub struct Encoder;

/// The global order of the chunks of the files under a configuration.
pub open spec fn encoded_order(datas: Seq<Seq<u8>>, cfg: EncoderConfig) -> Seq<(usize, usize)> {
    global_order(chunk_counts(datas, cfg.chunk_size as int), cfg.interleave_files)
}

/// Number of stripes of the files under a configuration.
pub open spec fn encoded_stripes(datas: Seq<Seq<u8>>, cfg: EncoderConfig) -> int {
    stripe_count(encoded_order(datas, cfg).len() as int, cfg.stripe_k as int)
}

/// The stream of parity shards of the files under a configuration: stripe
/// after stripe, and nothing where the configuration asks for no parity.
pub open spec fn encoded_stream(datas: Seq<Seq<u8>>, cfg: EncoderConfig) -> Seq<ShardModel> {
    stream_upto(
        datas,
        cfg.chunk_size as int,
        encoded_order(datas, cfg),
        cfg.stripe_k as int,
        cfg.m(),
        cfg.o(),
        if cfg.m() > 0 {
            encoded_stripes(datas, cfg)
        } else {
            0
        },
    )
}

/// The parity of every stripe of the files has the shape that the codec
/// gives it.
pub open spec fn shards_shaped(datas: Seq<Seq<u8>>, cfg: EncoderConfig) -> bool {
    forall|s: int|
        0 <= s < encoded_stripes(datas, cfg) && cfg.m() > 0 ==> #[trigger] stripe_shaped(
            datas,
            cfg.chunk_size as int,
            encoded_order(datas, cfg),
            cfg.stripe_k as int,
            cfg.m(),
            cfg.o(),
            s,
        )
}

/// Why encoding the files fails, if it does: the first of a parameter out of
/// range, capacities that are not one per volume, a path that is absolute or
/// leaves the root, and files too large for the counters of the format.
pub open spec fn encode_error(
    paths: Seq<Seq<char>>,
    datas: Seq<Seq<u8>>,
    cfg: EncoderConfig,
    capacities: Seq<usize>,
) -> Option<EncodeError> {
    match cfg.config_error() {
        Some(c) => Some(EncodeError::BadConfig(c)),
        None => if capacities.len() != cfg.volumes {
            Some(EncodeError::BadConfig(ConfigError::Capacities))
        } else {
            match first_unsafe_in(paths, paths.len() as int) {
                Some(e) => Some(EncodeError::UnsafePath(e)),
                None => if total_size(datas) > u64::MAX || encoded_stripes(datas, cfg)
                    > u32::MAX {
                    Some(EncodeError::TooLarge)
                } else {
                    None
                },
            }
        },
    }
}

impl Encoder {
    /// Encodes the files: chunks and hashes them, assigns the global order,
    /// builds the manifest, and computes the parity of every stripe, placing
    /// each shard on a volume by round-robin under the capacities given, one
    /// per volume and counted in shards.
    pub fn encode(
        files: &Vec<SourceFile>,
        cfg: &EncoderConfig,
        capacities: &Vec<usize>,
        parity_dir: &str,
        created_utc: &str,
    ) -> (r: Result<Encoded, EncodeError>)
        ensures
            match r {
                Ok(out) => {
                    &&& encode_error(
                        file_paths(files@),
                        file_datas(files@),
                        *cfg,
                        capacities@,
                    ) is None
                    &&& out.manifest@ == manifest_model(
                        file_paths(files@),
                        file_datas(files@),
                        *cfg,
                        parity_dir@,
                        created_utc@,
                    )
                    &&& stored(
                        out.volumes@,
                        cfg.stripe_k as u32,
                        cfg.m() as u32,
                        capacities@,
                        encoded_stream(file_datas(files@), *cfg),
                    )
                    &&& manifest_of(
                        out.manifest,
                        file_paths(files@),
                        file_datas(files@),
                        *cfg,
                    )
                    &&& verifies_clean(out.manifest, file_datas(files@))
                    &&& shards_shaped(file_datas(files@), *cfg)
                },
                Err(e) => encode_error(
                    file_paths(files@),
                    file_datas(files@),
                    *cfg,
                    capacities@,
                ) == Some(e),
            },
    {
        let m: usize = match cfg.validate() {
            Err(c) => {
                return Err(EncodeError::BadConfig(c));
            },
            Ok(m) => m,
        };
        if capacities.len() != cfg.volumes {
            return Err(EncodeError::BadConfig(ConfigError::Capacities));
        }
        let k: usize = cfg.stripe_k;
        let o: usize = if m > 0 {
            cfg.outer_parity
        } else {
            0
        };
        let chunk_size: usize = cfg.chunk_size;
        let ghost datas = file_datas(files@);
        match check_source_paths(files) {
            Some(e) => {
                return Err(EncodeError::UnsafePath(e));
            },
            None => {},
        }
        let total_bytes: u64 = match sum_sizes(files) {
            None => {
                return Err(EncodeError::TooLarge);
            },
            Some(t) => t,
        };
        let (plans, counts) = plan_files(files, chunk_size);
        let order = assign_order(&counts, cfg.interleave_files);
        let total: usize = order.len();
        let stripes: usize = stripes_for(total, k);
        if stripes > 0xffff_ffff {
            return Err(EncodeError::TooLarge);
        }
        let n_files: usize = counts.len();
        proof {
            lemma_order_is_bijection(counts@, cfg.interleave_files);
        }
        let manifest = build_manifest(
            files,
            &plans,
            &counts,
            &order,
            cfg,
            total_bytes,
            parity_dir,
            created_utc,
        );
        proof {
            assert forall|fi: int| 0 <= fi < datas.len() implies (#[trigger] datas[fi]).len()
                <= usize::MAX by {
                assert(files@[fi].data.len() == files@[fi].data@.len());
            }
            lemma_encoded_set_verifies(manifest, file_paths(files@), datas, *cfg);
        }
        let mut writers = new_writers(cfg.volumes, k as u32, m as u32, Ghost(capacities@));
        if m == 0 {
            return Ok(Encoded { manifest, volumes: writers });
        }
        let mut placer = Placer::new(copy_counts(capacities));
        let inner = match CpuBackend::new(k, m) {
            Ok(b) => b,
            Err(_) => {
                return Err(EncodeError::TooLarge);
            },
        };
        let outer = match CpuBackend::new(m, if o > 0 {
            o
        } else {
            1
        }) {
            Ok(b) => b,
            Err(_) => {
                return Err(EncodeError::TooLarge);
            },
        };
        let mut s: usize = 0;
        while s < stripes
            invariant
                s <= stripes,
                stripes <= 0xffff_ffff,
                stripes == stripe_count(total as int, k as int),
                total == order@.len(),
                k == cfg.stripe_k,
                chunk_size == cfg.chunk_size,
                0 < chunk_size <= u32::MAX,
                0 < k,
                0 < m,
                k + m <= 256,
                m + o <= 256,
                m == cfg.m(),
                o == cfg.o(),
                inner.k() == k && inner.m() == m,
                outer.k() == m && outer.m() == (if o > 0 {
                    o
                } else {
                    1
                }),
                datas == file_datas(files@),
                order@ == encoded_order(datas, *cfg),
                plans_of(plans@, datas, chunk_size as int),
                counts@.len() == plans@.len(),
                capacities@.len() > 0,
                forall|fi: int|
                    0 <= fi < plans@.len() ==> (#[trigger] plans@[fi])@.len() == counts@[fi],
                forall|h: int|
                    0 <= h < order@.len() ==> valid_chunk(
                        counts@,
                        (#[trigger] order@[h]).0 as int,
                        order@[h].1 as int,
                    ),
                placer.wf(),
                forall|x: int|
                    0 <= x < s ==> #[trigger] stripe_shaped(
                        datas,
                        chunk_size as int,
                        order@,
                        k as int,
                        m as int,
                        o as int,
                        x,
                    ),
                stored(
                    writers@,
                    k as u32,
                    m as u32,
                    capacities@,
                    stream_upto(
                        datas,
                        chunk_size as int,
                        order@,
                        k as int,
                        m as int,
                        o as int,
                        s as int,
                    ),
                ),
                placer.state() == state_after(
                    capacities@,
                    stream_upto(
                        datas,
                        chunk_size as int,
                        order@,
                        k as int,
                        m as int,
                        o as int,
                        s as int,
                    ).len(),
                ),
            decreases stripes - s,
        {
            let ghost sofar = stream_upto(
                datas,
                chunk_size as int,
                order@,
                k as int,
                m as int,
                o as int,
                s as int,
            );
            proof {
                lemma_stripe_start(total as int, k as int, s as int);
            }
            let base: usize = s * k;
            let data = stripe_shards(
                files,
                &plans,
                &order,
                chunk_size,
                k,
                base,
                Ghost(s as int),
                Ghost(counts@),
            );
            let mut parity = zero_shards(m, chunk_size);
            proof {
                lemma_all_uniform(data@ + parity@, chunk_size as int);
            }
            match inner.encode_stripe(&data, &mut parity) {
                Err(_) => {
                    return Err(EncodeError::TooLarge);
                },
                Ok(_) => {},
            }
            proof {
                lemma_uniform_parts(data@, parity@);
            }
            emit_batch(
                &mut writers,
                &mut placer,
                &parity,
                s as u32,
                false,
                Ghost(k as u32),
                Ghost(m as u32),
                Ghost(capacities@),
                Ghost(sofar),
            );
            let ghost with_inner = sofar + inner_models(shard_views(parity@), s as int);
            proof {
                assert forall|r: int| 0 <= r < m implies (#[trigger] shard_views(parity@)[r]).len()
                    == chunk_size by {
                    assert(parity@[r]@.len() == chunk_size);
                }
            }
            if o > 0 {
                let mut outer_parity = zero_shards(o, chunk_size);
                proof {
                    lemma_all_uniform(parity@ + outer_parity@, chunk_size as int);
                }
                match outer.encode_stripe(&parity, &mut outer_parity) {
                    Err(_) => {
                        return Err(EncodeError::TooLarge);
                    },
                    Ok(_) => {},
                }
                proof {
                    lemma_uniform_parts(parity@, outer_parity@);
                    assert forall|r: int| 0 <= r < o implies (#[trigger] shard_views(
                        outer_parity@,
                    )[r]).len() == chunk_size by {
                        assert(outer_parity@[r]@.len() == chunk_size);
                    }
                }
                emit_batch(
                    &mut writers,
                    &mut placer,
                    &outer_parity,
                    s as u32,
                    true,
                    Ghost(k as u32),
                    Ghost(m as u32),
                    Ghost(capacities@),
                    Ghost(with_inner),
                );
                assert(with_inner + outer_models(shard_views(outer_parity@), s as int)
                    =~= stream_upto(
                    datas,
                    chunk_size as int,
                    order@,
                    k as int,
                    m as int,
                    o as int,
                    s + 1,
                ));
            } else {
                assert(with_inner =~= stream_upto(
                    datas,
                    chunk_size as int,
                    order@,
                    k as int,
                    m as int,
                    o as int,
                    s + 1,
                ));
            }
            assert(stripe_shaped(
                datas,
                chunk_size as int,
                order@,
                k as int,
                m as int,
                o as int,
                s as int,
            ));
            s += 1;
        }
        Ok(Encoded { manifest, volumes: writers })
    }
}

/// The manifest that volume `v` of a set embeds: the one given in volume 0,
/// none in the others.
pub open spec fn embedded_in(v: int, manifest_json: Option<Seq<u8>>) -> Option<Seq<u8>> {
    if v == 0 {
        manifest_json
    } else {
        None
    }
}

/// Why the first `n` volumes of a set cannot be finished, if they cannot: the
/// reason of the first volume that has one.
pub open spec fn finish_error_upto(
    volumes: Seq<VolumeWriter>,
    manifest_json: Option<Seq<u8>>,
    n: int,
) -> Option<IndexError>
    decreases n,
{
    if n <= 0 {
        None
    } else {
        match finish_error_upto(volumes, manifest_json, n - 1) {
            Some(e) => Some(e),
            None => volumes[n - 1].finish_error(embedded_in(n - 1, manifest_json)),
        }
    }
}

/// A reason that was found stays the first when more volumes are looked at.
proof fn lemma_finish_error_stays(
    volumes: Seq<VolumeWriter>,
    manifest_json: Option<Seq<u8>>,
    n: int,
    end: int,
)
    requires
        0 <= n <= end,
        finish_error_upto(volumes, manifest_json, n) is Some,
    ensures
        finish_error_upto(volumes, manifest_json, end) == finish_error_upto(
            volumes,
            manifest_json,
            n,
        ),
    decreases end - n,
{
    if n < end {
        lemma_finish_error_stays(volumes, manifest_json, n, end - 1);
    }
}

impl Encoder {
    /// Finishes the volumes of a parity set. The manifest, as the bytes of its
    /// JSON form, is embedded in volume 0 where it is given. Every finished
    /// volume reads back as it was written. It fails exactly where a volume
    /// cannot be finished, with the reason of the first such volume.
    pub fn finish(volumes: &Vec<VolumeWriter>, manifest_json: Option<&[u8]>) -> (r: Result<
        Vec<Vec<u8>>,
        IndexError,
    >)
        requires
            forall|v: int| 0 <= v < volumes@.len() ==> (#[trigger] volumes@[v]).wf(),
        ensures
            match r {
                Ok(out) => {
                    &&& finish_error_upto(
                        volumes@,
                        json_view(manifest_json),
                        volumes@.len() as int,
                    ) is None
                    &&& out@.len() == volumes@.len()
                    &&& forall|v: int|
                        0 <= v < out@.len() ==> (#[trigger] volumes@[v]).reads_back(
                            embedded_in(v, json_view(manifest_json)),
                            out@[v]@,
                        )
                },
                Err(e) => finish_error_upto(
                    volumes@,
                    json_view(manifest_json),
                    volumes@.len() as int,
                ) == Some(e),
            },
    {
        let ghost whole = json_view(manifest_json);
        let mut out: Vec<Vec<u8>> = Vec::new();
        let mut v: usize = 0;
        while v < volumes.len()
            invariant
                v <= volumes.len(),
                whole == json_view(manifest_json),
                forall|x: int| 0 <= x < volumes@.len() ==> (#[trigger] volumes@[x]).wf(),
                out@.len() == v,
                finish_error_upto(volumes@, whole, v as int) is None,
                forall|x: int|
                    0 <= x < v ==> (#[trigger] volumes@[x]).reads_back(
                        embedded_in(x, whole),
                        out@[x]@,
                    ),
            decreases volumes.len() - v,
        {
            let json: Option<&[u8]> = if v == 0 {
                manifest_json
            } else {
                None
            };
            assert(json_view(json) == embedded_in(v as int, whole));
            match volumes[v].finish(json) {
                Err(e) => {
                    proof {
                        lemma_finish_error_stays(volumes@, whole, v + 1, volumes@.len() as int);
                    }
                    return Err(e);
                },
                Ok(vol) => {
                    let ghost before = out@;
                    out.push(vol);
                    assert forall|x: int| 0 <= x < v + 1 implies (#[trigger] volumes@[x]).reads_back(
                        embedded_in(x, whole),
                        out@[x]@,
                    ) by {
                        if x < v {
                            assert(out@[x] == before[x]);
                        }
                    }
                },
            }
            v += 1;
        }
        Ok(out)
    }
}

/// Shards that all have the length `len`, which is not zero, are uniform.
proof fn lemma_all_uniform(shards: Seq<Vec<u8>>, len: int)
    requires
        shards.len() > 0,
        len > 0,
        forall|i: int| 0 <= i < shards.len() ==> (#[trigger] shards[i])@.len() == len,
    ensures
        uniform(shard_views(shards)),
{
    assert forall|i: int| 0 <= i < shards.len() implies (#[trigger] shard_views(shards)[i]).len()
        == shard_views(shards)[0].len() by {
        assert(shards[i]@.len() == len);
        assert(shards[0]@.len() == len);
    }
}

/// The parts of a uniform list of shards have the length of its first shard.
proof fn lemma_uniform_parts(first: Seq<Vec<u8>>, second: Seq<Vec<u8>>)
    requires
        first.len() > 0,
        uniform(shard_views(first + second)),
    ensures
        forall|i: int| 0 <= i < second.len() ==> (#[trigger] second[i])@.len() == first[0]@.len(),
        forall|i: int| 0 <= i < first.len() ==> (#[trigger] first[i])@.len() == first[0]@.len(),
{
    let all = shard_views(first + second);
    assert(all[0] == first[0]@);
    assert forall|i: int| 0 <= i < second.len() implies (#[trigger] second[i])@.len()
        == first[0]@.len() by {
        assert(all[first.len() + i] == second[i]@);
    }
    assert forall|i: int| 0 <= i < first.len() implies (#[trigger] first[i])@.len()
        == first[0]@.len() by {
        assert(all[i] == first[i]@);
    }
}

} // verus!
