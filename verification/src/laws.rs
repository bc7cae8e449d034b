//! What holds of the parts of the library together: a set that was encoded
//! verifies.

use crate::chunker::{chunk_count, chunk_data, chunk_len};
use crate::encode::{
    chunk_counts, chunk_model, encoded_order, file_model, global_chunk, global_index, holds_shard,
    leaves, manifest_model, placed_on, stored, EncoderConfig, ShardModel,
};
use crate::hash::chunk_digest;
use crate::manifest::{FileEntry, Manifest};
use crate::merkle::merkle_root;
use crate::order::{lemma_order_is_bijection, total_chunks, valid_chunk};
use crate::path_safety::first_unsafe_in;
use crate::placement::place_of;
use crate::repair_laws::lemma_rank_onto;
use crate::text::hex_of;
use crate::verify::{
    chunk_intact, first_unsafe, idx_of, indexed, intact_count, intact_in_file, observed_leaves,
    ref_at, ref_count, valid_ref, verify_error, well_indexed, window,
};
use crate::volume::VolumeEntry;
use crate::writer::{bodies_end, laid_out, shard_bytes, VolumeWriter};
use vstd::prelude::*;

verus! {

/// The contents of files that are all there.
pub open spec fn all_there(datas: Seq<Seq<u8>>) -> Seq<Option<Seq<u8>>> {
    Seq::new(datas.len(), |i: int| Some(datas[i]))
}

/// A file has no more chunks than bytes.
proof fn lemma_chunk_count_bound(size: int, chunk_size: int)
    requires
        0 <= size,
        0 < chunk_size,
    ensures
        0 <= chunk_count(size, chunk_size) <= size,
        forall|ci: int|
            0 <= ci < chunk_count(size, chunk_size) ==> 0 <= #[trigger] (ci * chunk_size) < size,
{
    let n = chunk_count(size, chunk_size);
    let x = size + chunk_size - 1;
    vstd::arithmetic::div_mod::lemma_fundamental_div_mod(x, chunk_size);
    vstd::arithmetic::div_mod::lemma_mod_bound(x, chunk_size);
    assert(n == x / chunk_size);
    assert(chunk_size * n <= x);
    assert(n >= 0) by (nonlinear_arith)
        requires
            x >= 0,
            chunk_size > 0,
            n == x / chunk_size,
    ;
    assert(n <= size) by (nonlinear_arith)
        requires
            chunk_size * n <= size + chunk_size - 1,
            chunk_size >= 1,
            n >= 0,
            size >= 0,
    ;
    assert forall|ci: int| 0 <= ci < n implies 0 <= #[trigger] (ci * chunk_size) < size by {
        assert(ci * chunk_size <= (n - 1) * chunk_size) by (nonlinear_arith)
            requires
                0 <= ci <= n - 1,
                chunk_size > 0,
        ;
        assert((n - 1) * chunk_size == chunk_size * n - chunk_size) by (nonlinear_arith);
        assert(0 <= ci * chunk_size) by (nonlinear_arith)
            requires
                0 <= ci,
                chunk_size > 0,
        ;
    }
}

/// The manifest is the one of the files under the configuration, on a
/// machine that can count the files, their bytes and their chunks.
pub open spec fn manifest_of(
    mf: Manifest,
    paths: Seq<Seq<char>>,
    datas: Seq<Seq<u8>>,
    cfg: EncoderConfig,
) -> bool {
    &&& mf@ == manifest_model(paths, datas, cfg, mf.parity_dir@, mf.created_utc@)
    &&& paths.len() == datas.len()
    &&& datas.len() <= usize::MAX
    &&& forall|fi: int| 0 <= fi < datas.len() ==> (#[trigger] datas[fi]).len() <= usize::MAX
    &&& 0 < cfg.chunk_size <= u32::MAX
    &&& encoded_order(datas, cfg).len() <= usize::MAX
}

proof fn lemma_shape(mf: Manifest, paths: Seq<Seq<char>>, datas: Seq<Seq<u8>>, cfg: EncoderConfig)
    requires
        manifest_of(mf, paths, datas, cfg),
    ensures
        mf.files@.len() == datas.len(),
        mf.chunk_size == cfg.chunk_size,
        mf.total_chunks == encoded_order(datas, cfg).len(),
        forall|fi: int|
            0 <= fi < datas.len() ==> (#[trigger] mf.files@[fi]).chunks@.len() == chunk_counts(
                datas,
                cfg.chunk_size as int,
            )[fi] && mf.files@[fi].rel_path@ == paths[fi],
        forall|fi: int, ci: int|
            valid_ref(mf, fi, ci) <==> valid_chunk(
                chunk_counts(datas, cfg.chunk_size as int),
                fi,
                ci,
            ),
        forall|fi: int, ci: int| #[trigger]
            valid_ref(mf, fi, ci) ==> mf.files@[fi].chunks@[ci]@ == chunk_model(
                datas[fi],
                cfg.chunk_size as int,
                encoded_order(datas, cfg),
                fi,
                ci,
            ),
{
    let cs = cfg.chunk_size as int;
    let counts = chunk_counts(datas, cs);
    let order = encoded_order(datas, cfg);
    let model = manifest_model(paths, datas, cfg, mf.parity_dir@, mf.created_utc@);
    assert(mf@.files.len() == mf.files@.len());
    assert(model.files.len() == datas.len());
    assert forall|fi: int| 0 <= fi < datas.len() implies (#[trigger] mf.files@[fi]).chunks@.len()
        == counts[fi] && mf.files@[fi].rel_path@ == paths[fi] by {
        lemma_chunk_count_bound(datas[fi].len() as int, cs);
        assert(mf@.files[fi] == mf.files@[fi]@);
        assert(model.files[fi] == file_model(paths[fi], datas[fi], cs, order, fi));
        assert(mf.files@[fi]@.chunks.len() == mf.files@[fi].chunks@.len());
    }
    assert forall|fi: int, ci: int| #[trigger] valid_ref(mf, fi, ci) implies mf.files@[fi].chunks@[ci]@
        == chunk_model(datas[fi], cs, order, fi, ci) by {
        assert(mf@.files[fi] == mf.files@[fi]@);
        assert(model.files[fi] == file_model(paths[fi], datas[fi], cs, order, fi));
        assert(mf.files@[fi]@.chunks[ci] == mf.files@[fi].chunks@[ci]@);
    }
}

proof fn lemma_ref_count(mf: Manifest, counts: Seq<usize>, n: int)
    requires
        0 <= n <= counts.len(),
        mf.files@.len() == counts.len(),
        forall|fi: int|
            0 <= fi < counts.len() ==> (#[trigger] mf.files@[fi]).chunks@.len() == counts[fi],
    ensures
        ref_count(mf.files@, n) == total_chunks(counts.take(n)),
    decreases n,
{
    if n == 0 {
        assert(counts.take(0) =~= Seq::<usize>::empty());
    } else {
        lemma_ref_count(mf, counts, n - 1);
        assert(counts.take(n).drop_last() =~= counts.take(n - 1));
        assert(counts.take(n).last() == counts[n - 1]);
    }
}

proof fn lemma_all_intact(file: Option<Seq<u8>>, fe: FileEntry, chunk_size: nat, n: int)
    requires
        0 <= n <= fe.chunks@.len(),
        forall|ci: int|
            0 <= ci < fe.chunks@.len() ==> chunk_intact(file, #[trigger] fe.chunks@[ci], chunk_size),
    ensures
        intact_in_file(file, fe.chunks@.take(n), chunk_size) == n,
    decreases n,
{
    if n > 0 {
        lemma_all_intact(file, fe, chunk_size, n - 1);
        assert(fe.chunks@.take(n).drop_last() =~= fe.chunks@.take(n - 1));
        assert(fe.chunks@.take(n).last() == fe.chunks@[n - 1]);
    }
}

proof fn lemma_intact_total(mf: Manifest, files: Seq<Option<Seq<u8>>>, n: int)
    requires
        0 <= n <= mf.files@.len(),
        mf.files@.len() == files.len(),
        forall|fi: int, ci: int| #[trigger]
            valid_ref(mf, fi, ci) ==> chunk_intact(
                files[fi],
                mf.files@[fi].chunks@[ci],
                mf.chunk_size as nat,
            ),
    ensures
        intact_count(files, mf.files@, mf.chunk_size as nat, n) == ref_count(mf.files@, n),
    decreases n,
{
    if n > 0 {
        lemma_intact_total(mf, files, n - 1);
        let fe = mf.files@[n - 1];
        assert forall|ci: int| 0 <= ci < fe.chunks@.len() implies chunk_intact(
            files[n - 1],
            #[trigger] fe.chunks@[ci],
            mf.chunk_size as nat,
        ) by {
            assert(valid_ref(mf, n - 1, ci));
        }
        lemma_all_intact(files[n - 1], fe, mf.chunk_size as nat, fe.chunks@.len() as int);
        assert(fe.chunks@.take(fe.chunks@.len() as int) =~= fe.chunks@);
    }
}

proof fn lemma_paths_safe(mf: Manifest, paths: Seq<Seq<char>>, n: int)
    requires
        0 <= n <= mf.files@.len(),
        mf.files@.len() == paths.len(),
        forall|fi: int| 0 <= fi < paths.len() ==> (#[trigger] mf.files@[fi]).rel_path@ == paths[fi],
    ensures
        first_unsafe(mf, n) == first_unsafe_in(paths, n),
    decreases n,
{
    if n > 0 {
        lemma_paths_safe(mf, paths, n - 1);
        assert(mf.files@[n - 1].rel_path@ == paths[n - 1]);
    }
}

/// The files pass the verifier against the manifest: nothing stops it, every
/// chunk is intact, and the Merkle root that it computes is the recorded one.
pub open spec fn verifies_as(mf: Manifest, files: Seq<Option<Seq<u8>>>) -> bool {
    &&& well_indexed(mf)
    &&& verify_error(mf, files) is None
    &&& intact_count(files, mf.files@, mf.chunk_size as nat, mf.files@.len() as int)
        == mf.total_chunks
    &&& hex_of(merkle_root(observed_leaves(mf, files))) == mf.merkle_root_hex@
}

/// The files as they were encoded pass the verifier against the manifest.
pub open spec fn verifies_clean(mf: Manifest, datas: Seq<Seq<u8>>) -> bool {
    verifies_as(mf, all_there(datas))
}

/// Files whose chunks hold the bytes that they held when the set was
/// encoded pass the verifier: every chunk is intact, and the Merkle root that
/// the verifier computes is the recorded one. The global indices of the
/// manifest of a set are the numbers from 0 up to the total number of chunks,
/// each once, in either ordering mode.
pub proof fn lemma_restored_verifies(
    mf: Manifest,
    paths: Seq<Seq<char>>,
    datas: Seq<Seq<u8>>,
    cfg: EncoderConfig,
    files: Seq<Option<Seq<u8>>>,
)
    requires
        manifest_of(mf, paths, datas, cfg),
        first_unsafe_in(paths, paths.len() as int) is None,
        files.len() == datas.len(),
        forall|fi: int, ci: int| #[trigger]
            valid_ref(mf, fi, ci) ==> window(files[fi], mf.files@[fi].chunks@[ci]) == Some(
                chunk_data(datas[fi], cfg.chunk_size as int, ci),
            ),
    ensures
        verifies_as(mf, files),
        observed_leaves(mf, files) == leaves(
            datas,
            cfg.chunk_size as int,
            encoded_order(datas, cfg),
        ),
        forall|fi: int, ci: int| #[trigger]
            valid_ref(mf, fi, ci) ==> chunk_intact(
                files[fi],
                mf.files@[fi].chunks@[ci],
                mf.chunk_size as nat,
            ),
{
    let cs = cfg.chunk_size as int;
    let counts = chunk_counts(datas, cs);
    let order = encoded_order(datas, cfg);
    let n = datas.len() as int;
    lemma_shape(mf, paths, datas, cfg);
    lemma_order_is_bijection(counts, cfg.interleave_files);
    lemma_ref_count(mf, counts, n);
    assert(counts.take(n) =~= counts);
    lemma_paths_safe(mf, paths, n);
    // every reference has the index of its place in the order
    assert forall|fi: int, ci: int| valid_ref(mf, fi, ci) implies 0 <= #[trigger] idx_of(
        mf,
        fi,
        ci,
    ) < mf.total_chunks && order[idx_of(mf, fi, ci)] == (fi as usize, ci as usize) by {
        assert(valid_chunk(counts, fi, ci));
        assert(mf.files@[fi].chunks@[ci]@ == chunk_model(datas[fi], cs, order, fi, ci));
        let g = choose|g: int|
            0 <= g < order.len() && #[trigger] order[g] == (fi as usize, ci as usize);
        assert(idx_of(mf, fi, ci) == global_index(order, fi, ci));
    }
    assert forall|fi: int, ci: int, fj: int, cj: int|
        valid_ref(mf, fi, ci) && valid_ref(mf, fj, cj) && #[trigger] idx_of(mf, fi, ci)
            == #[trigger] idx_of(mf, fj, cj) implies fi == fj && ci == cj by {
        assert(valid_chunk(counts, fi, ci));
        assert(valid_chunk(counts, fj, cj));
        assert((fi as usize, ci as usize) == (fj as usize, cj as usize));
    }
    assert forall|g: int| 0 <= g < mf.total_chunks implies #[trigger] indexed(mf, g) by {
        let r = order[g];
        assert(valid_chunk(counts, r.0 as int, r.1 as int));
        assert(valid_ref(mf, r.0 as int, r.1 as int));
        let x = idx_of(mf, r.0 as int, r.1 as int);
        assert(order[x] == (r.0 as int as usize, r.1 as int as usize));
        if x < g {
            assert(order[x] != order[g]);
        } else if g < x {
            assert(order[g] != order[x]);
        }
    }
    assert(well_indexed(mf));
    // every chunk is intact
    assert forall|fi: int, ci: int| #[trigger] valid_ref(mf, fi, ci) implies chunk_intact(
        files[fi],
        mf.files@[fi].chunks@[ci],
        mf.chunk_size as nat,
    ) by {
        let c = mf.files@[fi].chunks@[ci];
        assert(valid_chunk(counts, fi, ci));
        assert(c@ == chunk_model(datas[fi], cs, order, fi, ci));
        lemma_chunk_count_bound(datas[fi].len() as int, cs);
        assert(0 <= ci * cs < datas[fi].len());
        assert(c.len == chunk_len(datas[fi].len() as int, cs, ci));
    }
    lemma_intact_total(mf, files, n);
    // the verifier sees the leaves that the encoder hashed
    let seen = observed_leaves(mf, files);
    let want = leaves(datas, cs, order);
    assert forall|g: int| 0 <= g < mf.total_chunks implies seen[g] == want[g] by {
        let r = order[g];
        assert(valid_chunk(counts, r.0 as int, r.1 as int));
        assert(valid_ref(mf, r.0 as int, r.1 as int));
        assert(indexed(mf, g));
        let c = ref_at(mf, g);
        assert(valid_ref(mf, c.0, c.1) && idx_of(mf, c.0, c.1) == g) by {
            let (a, b) = choose|a: int, b: int|
                valid_ref(mf, a, b) && #[trigger] idx_of(mf, a, b) == g;
            assert(valid_ref(mf, (a, b).0, (a, b).1) && idx_of(mf, (a, b).0, (a, b).1) == g);
        }
        assert(order[g] == (c.0 as usize, c.1 as usize));
        assert(valid_chunk(counts, c.0, c.1));
        assert(global_chunk(datas, cs, order, g) == chunk_data(datas[c.0], cs, c.1));
    }
    assert(seen =~= want);
}

/// A set that was encoded verifies: against the manifest of the files, the
/// files as they were pass the verifier.
pub proof fn lemma_encoded_set_verifies(
    mf: Manifest,
    paths: Seq<Seq<char>>,
    datas: Seq<Seq<u8>>,
    cfg: EncoderConfig,
)
    requires
        manifest_of(mf, paths, datas, cfg),
        first_unsafe_in(paths, paths.len() as int) is None,
    ensures
        verifies_clean(mf, datas),
        observed_leaves(mf, all_there(datas)) == leaves(
            datas,
            cfg.chunk_size as int,
            encoded_order(datas, cfg),
        ),
{
    let cs = cfg.chunk_size as int;
    let counts = chunk_counts(datas, cs);
    let order = encoded_order(datas, cfg);
    lemma_shape(mf, paths, datas, cfg);
    assert forall|fi: int, ci: int| #[trigger] valid_ref(mf, fi, ci) implies window(
        all_there(datas)[fi],
        mf.files@[fi].chunks@[ci],
    ) == Some(chunk_data(datas[fi], cs, ci)) by {
        let c = mf.files@[fi].chunks@[ci];
        assert(valid_chunk(counts, fi, ci));
        assert(c@ == chunk_model(datas[fi], cs, order, fi, ci));
        lemma_chunk_count_bound(datas[fi].len() as int, cs);
        assert(0 <= ci * cs < datas[fi].len());
        assert(c.file_offset == ci * cs);
        assert(c.len == chunk_len(datas[fi].len() as int, cs, ci));
    }
    lemma_restored_verifies(mf, paths, datas, cfg, all_there(datas));
}

/// What the manifest of a set says of its chunks: the chunk references are
/// those of the chunks of the files; each records where the chunk starts,
/// how long it is, and the digest of its zero-padded bytes; each lies within
/// its file; and the reference with global index `g` is the one that the
/// global order names at `g`.
pub proof fn lemma_manifest_chunks(
    mf: Manifest,
    paths: Seq<Seq<char>>,
    datas: Seq<Seq<u8>>,
    cfg: EncoderConfig,
)
    requires
        manifest_of(mf, paths, datas, cfg),
    ensures
        mf.files@.len() == datas.len(),
        mf.chunk_size == cfg.chunk_size,
        mf.stripe_k == cfg.stripe_k,
        mf.parity_pct == cfg.parity_pct,
        mf.outer_parity == cfg.outer_parity,
        mf.total_chunks == encoded_order(datas, cfg).len(),
        forall|fi: int| 0 <= fi < datas.len() ==> (#[trigger] mf.files@[fi]).size == datas[fi].len(),
        forall|fi: int, ci: int| #[trigger]
            valid_ref(mf, fi, ci) ==> {
                let c = mf.files@[fi].chunks@[ci];
                let cs = cfg.chunk_size as int;
                &&& valid_chunk(chunk_counts(datas, cs), fi, ci)
                &&& c.file_offset == ci * cs
                &&& c.len == chunk_len(datas[fi].len() as int, cs, ci)
                &&& 0 < c.len <= cs
                &&& c.file_offset + c.len <= datas[fi].len()
                &&& c.hash_hex@ == hex_of(chunk_digest(chunk_data(datas[fi], cs, ci), cs as nat))
                &&& window(Some(datas[fi]), c) == Some(chunk_data(datas[fi], cs, ci))
                &&& 0 <= idx_of(mf, fi, ci) < mf.total_chunks
                &&& encoded_order(datas, cfg)[idx_of(mf, fi, ci)] == (fi as usize, ci as usize)
            },
        forall|g: int|
            0 <= g < mf.total_chunks ==> {
                let r = #[trigger] ref_at(mf, g);
                &&& valid_ref(mf, r.0, r.1)
                &&& idx_of(mf, r.0, r.1) == g
                &&& encoded_order(datas, cfg)[g] == (r.0 as usize, r.1 as usize)
            },
{
    let cs = cfg.chunk_size as int;
    let counts = chunk_counts(datas, cs);
    let order = encoded_order(datas, cfg);
    let model = manifest_model(paths, datas, cfg, mf.parity_dir@, mf.created_utc@);
    lemma_shape(mf, paths, datas, cfg);
    lemma_order_is_bijection(counts, cfg.interleave_files);
    assert forall|fi: int| 0 <= fi < datas.len() implies (#[trigger] mf.files@[fi]).size
        == datas[fi].len() by {
        assert(mf@.files[fi] == mf.files@[fi]@);
        assert(model.files[fi] == file_model(paths[fi], datas[fi], cs, order, fi));
    }
    assert forall|fi: int, ci: int| #[trigger] valid_ref(mf, fi, ci) implies {
        let c = mf.files@[fi].chunks@[ci];
        &&& valid_chunk(counts, fi, ci)
        &&& c.file_offset == ci * cs
        &&& c.len == chunk_len(datas[fi].len() as int, cs, ci)
        &&& 0 < c.len <= cs
        &&& c.file_offset + c.len <= datas[fi].len()
        &&& c.hash_hex@ == hex_of(chunk_digest(chunk_data(datas[fi], cs, ci), cs as nat))
        &&& window(Some(datas[fi]), c) == Some(chunk_data(datas[fi], cs, ci))
        &&& 0 <= idx_of(mf, fi, ci) < mf.total_chunks
        &&& order[idx_of(mf, fi, ci)] == (fi as usize, ci as usize)
    } by {
        let c = mf.files@[fi].chunks@[ci];
        assert(valid_chunk(counts, fi, ci));
        assert(c@ == chunk_model(datas[fi], cs, order, fi, ci));
        lemma_chunk_count_bound(datas[fi].len() as int, cs);
        assert(0 <= ci * cs < datas[fi].len());
        let g = choose|g: int|
            0 <= g < order.len() && #[trigger] order[g] == (fi as usize, ci as usize);
        assert(idx_of(mf, fi, ci) == global_index(order, fi, ci));
    }
    assert forall|g: int| 0 <= g < mf.total_chunks implies {
        let r = #[trigger] ref_at(mf, g);
        &&& valid_ref(mf, r.0, r.1)
        &&& idx_of(mf, r.0, r.1) == g
        &&& order[g] == (r.0 as usize, r.1 as usize)
    } by {
        let t = order[g];
        assert(valid_chunk(counts, t.0 as int, t.1 as int));
        assert(valid_ref(mf, t.0 as int, t.1 as int));
        let x = idx_of(mf, t.0 as int, t.1 as int);
        assert(order[x] == (t.0 as int as usize, t.1 as int as usize));
        if x < g {
            assert(order[x] != order[g]);
        } else if g < x {
            assert(order[g] != order[x]);
        }
        let w = (t.0 as int, t.1 as int);
        assert(valid_ref(mf, w.0, w.1) && idx_of(mf, w.0, w.1) == g);
        let r = ref_at(mf, g);
        assert(valid_ref(mf, r.0, r.1) && idx_of(mf, r.0, r.1) == g);
    }
}

/// Runs of entries whose shards have the same lengths end at the same place.
proof fn lemma_bodies_end_same(a: Seq<VolumeEntry>, b: Seq<VolumeEntry>, j: int)
    requires
        0 <= j <= a.len(),
        j <= b.len(),
        forall|i: int| 0 <= i < j ==> (#[trigger] a[i]).len == b[i].len,
    ensures
        bodies_end(a.take(j)) == bodies_end(b.take(j)),
    decreases j,
{
    if j > 0 {
        lemma_bodies_end_same(a, b, j - 1);
        assert(a.take(j).drop_last() =~= a.take(j - 1));
        assert(b.take(j).drop_last() =~= b.take(j - 1));
        assert(a.take(j).last() == a[j - 1]);
        assert(b.take(j).last() == b[j - 1]);
    }
}

/// Every byte of a volume after the header belongs to the shard of one of
/// its entries.
proof fn lemma_bodies_cover(image: Seq<u8>, entries: Seq<VolumeEntry>, n: int, p: int)
    requires
        laid_out(image, entries),
        0 <= n <= entries.len(),
        32 <= p < bodies_end(entries.take(n)),
    ensures
        exists|j: int|
            0 <= j < n && (#[trigger] entries[j]).offset <= p < entries[j].offset + entries[j].len,
    decreases n,
{
    if n > 0 {
        assert(entries.take(n).drop_last() =~= entries.take(n - 1));
        assert(entries.take(n).last() == entries[n - 1]);
        if p < bodies_end(entries.take(n - 1)) {
            lemma_bodies_cover(image, entries, n - 1, p);
            let j = choose|j: int|
                0 <= j < n - 1 && (#[trigger] entries[j]).offset <= p < entries[j].offset
                    + entries[j].len;
            assert(0 <= j < n);
        } else {
            assert(entries[n - 1].offset == bodies_end(entries.take(n - 1)));
        }
    }
}

/// Encoding is deterministic: two sets of volumes that hold the same stream
/// of shards under the same capacities are the same, entry for entry and
/// byte for byte.
pub proof fn lemma_volumes_determined(
    a: Seq<VolumeWriter>,
    b: Seq<VolumeWriter>,
    k: u32,
    m: u32,
    capacities: Seq<usize>,
    stream: Seq<ShardModel>,
    v: int,
)
    requires
        capacities.len() > 0,
        stored(a, k, m, capacities, stream),
        stored(b, k, m, capacities, stream),
        0 <= v < capacities.len(),
    ensures
        a[v].k == b[v].k,
        a[v].m == b[v].m,
        a[v].entries@ == b[v].entries@,
        a[v].image@ == b[v].image@,
{
    let ea = a[v].entries@;
    let eb = b[v].entries@;
    let ia = a[v].image@;
    let ib = b[v].image@;
    assert(ea.len() == eb.len());
    // entry for entry: what an entry says but for its place
    assert forall|j: int| 0 <= j < ea.len() implies {
        &&& (#[trigger] ea[j]).stripe == eb[j].stripe
        &&& ea[j].parity_idx == eb[j].parity_idx
        &&& ea[j].outer_for_stripe == eb[j].outer_for_stripe
        &&& ea[j].len == eb[j].len
        &&& shard_bytes(ia, ea[j]) == shard_bytes(ib, eb[j])
    } by {
        lemma_rank_onto(capacities, stream.len(), v, j);
        let x = choose|x: int|
            0 <= x < stream.len() && place_of(capacities, x as nat) == v && #[trigger] placed_on(
                capacities,
                x as nat,
                v,
            ) == j;
        assert(holds_shard(a[v], j, stream[x]));
        assert(holds_shard(b[v], j, stream[x]));
    }
    // and its place and its digest
    assert forall|j: int| 0 <= j < ea.len() implies (#[trigger] ea[j]) == eb[j] by {
        lemma_bodies_end_same(ea, eb, j);
        assert(ea[j].offset == eb[j].offset);
        let da = ea[j].hash->0;
        let db = eb[j].hash->0;
        assert(da@ =~= db@);
        assert(da == db);
    }
    assert(ea =~= eb);
    // byte for byte
    assert(ea.take(ea.len() as int) =~= ea);
    assert(ia.len() == ib.len());
    assert forall|p: int| 0 <= p < ia.len() implies ia[p] == ib[p] by {
        if p < 32 {
            assert(ia.subrange(0, 32)[p] == ib.subrange(0, 32)[p]);
        } else {
            lemma_bodies_cover(ia, ea, ea.len() as int, p);
            let j = choose|j: int|
                0 <= j < ea.len() && (#[trigger] ea[j]).offset <= p < ea[j].offset + ea[j].len;
            assert(shard_bytes(ia, ea[j])[p - ea[j].offset] == ia[p]);
            assert(shard_bytes(ib, eb[j])[p - eb[j].offset] == ib[p]);
        }
    }
    assert(ia =~= ib);
}

} // verus!
