//! Why a repair restores a set that was encoded: the volumes hold the parity
//! of every stripe, the repairer finds it, and the code gives the damaged
//! chunks back.

use crate::chunker::chunk_data;
use crate::damage::damage_in;
use crate::encode::{
    encoded_order, encoded_stream, encoded_stripes, global_chunk, holds_shard, inner_models,
    inner_shards, outer_models, outer_shards, placed_on, shards_shaped, stored, stream_upto,
    stripe_data, stripe_shaped, stripe_stream, EncoderConfig, ShardModel,
};
use crate::hash::zero_padded;
use crate::index::{volume_index, IndexError, IndexLimits};
use crate::laws::{
    lemma_encoded_set_verifies, lemma_manifest_chunks, lemma_restored_verifies, manifest_of,
    verifies_as,
};
use crate::manifest::{parity_count, stripe_count, Manifest};
use crate::parity_audit::entries_of;
use crate::path_safety::first_unsafe_in;
use crate::placement::{lemma_state_after_ok, place_of};
use crate::repair::{
    all_present, apply_edit, catalog, chunk_fix, damaged_at, data_slot, data_slots, first_try,
    gather, parity_try, placeable, read_shard, repair_upto, restores, restores_at, second_try,
    slot_damaged, stripe_damaged, stripe_rec, tagged, wanted, RepairModel, StripeOutcome,
};
use crate::rs_codec::{present_count, rs_parity, rs_reconstructed, survivors_of, uniform};
use crate::verify::{chunk_intact, idx_of, ref_at, valid_ref, window};
use crate::volume::{index_bytes, VolumeEntry, OUTER_STRIPE};
use crate::writer::{bodies_end, laid_out, shard_bytes, VolumeWriter};
use vstd::prelude::*;

verus! {

/// Every entry of a volume belongs to a shard of the stream: for each place
/// `j` below the number of shards that volume `v` took, some shard of the
/// stream went to `v` and got place `j` there.
pub(crate) proof fn lemma_rank_onto(capacities: Seq<usize>, n: nat, v: int, j: int)
    requires
        capacities.len() > 0,
        0 <= j < placed_on(capacities, n, v),
    ensures
        exists|x: int|
            0 <= x < n && place_of(capacities, x as nat) == v && #[trigger] placed_on(
                capacities,
                x as nat,
                v,
            ) == j,
    decreases n,
{
    if n > 0 {
        let prev = (n - 1) as nat;
        if place_of(capacities, prev) == v && placed_on(capacities, prev, v) == j {
            assert(placed_on(capacities, prev, v) == j);
        } else {
            lemma_rank_onto(capacities, prev, v, j);
            let x = choose|x: int|
                0 <= x < prev && place_of(capacities, x as nat) == v && #[trigger] placed_on(
                    capacities,
                    x as nat,
                    v,
                ) == j;
            assert(0 <= x < n);
        }
    }
}

/// The shard is one of the stream of the first `stripes` stripes: an inner
/// parity shard of one of them, or an outer one.
pub open spec fn stream_member(
    datas: Seq<Seq<u8>>,
    chunk_size: int,
    order: Seq<(usize, usize)>,
    k: int,
    m: int,
    o: int,
    stripes: int,
    sh: ShardModel,
) -> bool {
    exists|s: int, r: int|
        0 <= s < stripes && 0 <= r < m + o && #[trigger] stripe_stream(
            datas,
            chunk_size,
            order,
            k,
            m,
            o,
            s,
        )[r] == sh
}

/// Every stripe adds M + O shards to the stream.
proof fn lemma_stripe_stream_len(
    datas: Seq<Seq<u8>>,
    chunk_size: int,
    order: Seq<(usize, usize)>,
    k: int,
    m: int,
    o: int,
    s: int,
)
    requires
        0 <= m,
        0 <= o,
        stripe_shaped(datas, chunk_size, order, k, m, o, s),
    ensures
        stripe_stream(datas, chunk_size, order, k, m, o, s).len() == m + o,
{
}

/// Every shard of the stream of the first `stripes` stripes is a shard of
/// one of these stripes.
proof fn lemma_stream_only(
    datas: Seq<Seq<u8>>,
    chunk_size: int,
    order: Seq<(usize, usize)>,
    k: int,
    m: int,
    o: int,
    stripes: int,
    n: int,
)
    requires
        0 <= stripes,
        0 <= m,
        0 <= o,
        forall|s: int|
            0 <= s < stripes ==> #[trigger] stripe_shaped(datas, chunk_size, order, k, m, o, s),
        0 <= n < stream_upto(datas, chunk_size, order, k, m, o, stripes).len(),
    ensures
        stream_member(
            datas,
            chunk_size,
            order,
            k,
            m,
            o,
            stripes,
            stream_upto(datas, chunk_size, order, k, m, o, stripes)[n],
        ),
    decreases stripes,
{
    let all = stream_upto(datas, chunk_size, order, k, m, o, stripes);
    if stripes > 0 {
        let prev = stream_upto(datas, chunk_size, order, k, m, o, stripes - 1);
        let last = stripe_stream(datas, chunk_size, order, k, m, o, stripes - 1);
        assert(stripe_shaped(datas, chunk_size, order, k, m, o, stripes - 1));
        lemma_stripe_stream_len(datas, chunk_size, order, k, m, o, stripes - 1);
        assert(all == prev + last);
        if n < prev.len() {
            lemma_stream_only(datas, chunk_size, order, k, m, o, stripes - 1, n);
            assert(all[n] == prev[n]);
            let (s, r) = choose|s: int, r: int|
                0 <= s < stripes - 1 && 0 <= r < m + o && #[trigger] stripe_stream(
                    datas,
                    chunk_size,
                    order,
                    k,
                    m,
                    o,
                    s,
                )[r] == prev[n];
            assert(0 <= s < stripes && stripe_stream(datas, chunk_size, order, k, m, o, s)[r]
                == all[n]);
        } else {
            let r = n - prev.len();
            assert(all[n] == last[r]);
            assert(0 <= stripes - 1 < stripes && stripe_stream(
                datas,
                chunk_size,
                order,
                k,
                m,
                o,
                stripes - 1,
            )[r] == all[n]);
        }
    }
}

/// Every shard of each of the first `stripes` stripes is in their stream.
proof fn lemma_stream_all(
    datas: Seq<Seq<u8>>,
    chunk_size: int,
    order: Seq<(usize, usize)>,
    k: int,
    m: int,
    o: int,
    stripes: int,
    s: int,
    r: int,
)
    requires
        0 <= m,
        0 <= o,
        forall|x: int|
            0 <= x < stripes ==> #[trigger] stripe_shaped(datas, chunk_size, order, k, m, o, x),
        0 <= s < stripes,
        0 <= r < m + o,
    ensures
        stream_upto(datas, chunk_size, order, k, m, o, stripes).contains(
            stripe_stream(datas, chunk_size, order, k, m, o, s)[r],
        ),
    decreases stripes,
{
    let all = stream_upto(datas, chunk_size, order, k, m, o, stripes);
    let prev = stream_upto(datas, chunk_size, order, k, m, o, stripes - 1);
    let last = stripe_stream(datas, chunk_size, order, k, m, o, stripes - 1);
    let x = stripe_stream(datas, chunk_size, order, k, m, o, s)[r];
    assert(stripe_shaped(datas, chunk_size, order, k, m, o, stripes - 1));
    lemma_stripe_stream_len(datas, chunk_size, order, k, m, o, stripes - 1);
    assert(all == prev + last);
    if s < stripes - 1 {
        lemma_stream_all(datas, chunk_size, order, k, m, o, stripes - 1, s, r);
        let n = choose|n: int| 0 <= n < prev.len() && prev[n] == x;
        assert(all[n] == x);
    } else {
        assert(all[prev.len() + r] == x);
    }
}

/// The catalog of the first `n` volumes holds the entries of these volumes,
/// each with the number of its volume, and nothing else.
proof fn lemma_catalog_members(vols: Seq<Seq<u8>>, limits: IndexLimits, n: int)
    requires
        0 <= n <= vols.len(),
        vols.len() <= usize::MAX,
    ensures
        forall|v: int, j: int|
            0 <= v < n && 0 <= j < entries_of(vols[v], limits).len() ==> catalog(
                vols,
                limits,
                n,
            ).contains((v as usize, #[trigger] entries_of(vols[v], limits)[j])),
        forall|i: int|
            0 <= i < catalog(vols, limits, n).len() ==> {
                let item = #[trigger] catalog(vols, limits, n)[i];
                item.0 < n && entries_of(vols[item.0 as int], limits).contains(item.1)
            },
    decreases n,
{
    if n > 0 {
        lemma_catalog_members(vols, limits, n - 1);
        let prev = catalog(vols, limits, n - 1);
        let last = tagged(n - 1, entries_of(vols[n - 1], limits));
        let all = catalog(vols, limits, n);
        assert(all == prev + last);
        assert forall|v: int, j: int|
            0 <= v < n && 0 <= j < entries_of(vols[v], limits).len() implies all.contains(
            (v as usize, #[trigger] entries_of(vols[v], limits)[j]),
        ) by {
            let x = (v as usize, entries_of(vols[v], limits)[j]);
            if v < n - 1 {
                assert(prev.contains(x));
                let i = choose|i: int| 0 <= i < prev.len() && prev[i] == x;
                assert(all[i] == x);
            } else {
                assert(all[prev.len() + j] == last[j]);
                assert(last[j] == x);
            }
        }
        assert forall|i: int| 0 <= i < all.len() implies {
            let item = #[trigger] all[i];
            item.0 < n && entries_of(vols[item.0 as int], limits).contains(item.1)
        } by {
            if i < prev.len() {
                assert(all[i] == prev[i]);
            } else {
                let j = i - prev.len();
                assert(all[i] == last[j]);
                assert(entries_of(vols[n - 1], limits)[j] == last[j].1);
            }
        }
    }
}

/// Among the first `n` entries of the catalog, one describes the parity
/// shard `pi` of stripe `s`.
pub open spec fn has_candidate(
    cat: Seq<(usize, VolumeEntry)>,
    s: u32,
    outer: bool,
    pi: int,
    n: int,
) -> bool {
    exists|i: int|
        0 <= i < n && wanted((#[trigger] cat[i]).1, s, outer) && cat[i].1.parity_idx == pi
}

/// Where every entry of the catalog that describes a parity shard of stripe
/// `s` can be read and holds the shard `want` of its parity index, gathering
/// finds exactly the shards that have an entry, each as `want` has it.
proof fn lemma_gather(
    cat: Seq<(usize, VolumeEntry)>,
    vols: Seq<Seq<u8>>,
    chunk_size: nat,
    s: u32,
    outer: bool,
    want: Seq<Seq<u8>>,
    n: int,
)
    requires
        0 <= n <= cat.len(),
        forall|i: int|
            0 <= i < cat.len() && wanted((#[trigger] cat[i]).1, s, outer) && cat[i].1.parity_idx
                < want.len() ==> read_shard(vols[cat[i].0 as int], cat[i].1, chunk_size) == Some(
                want[cat[i].1.parity_idx as int],
            ),
    ensures
        gather(cat, vols, chunk_size, s, outer, want.len() as int, n).len() == want.len(),
        forall|pi: int|
            0 <= pi < want.len() ==> (#[trigger] gather(
                cat,
                vols,
                chunk_size,
                s,
                outer,
                want.len() as int,
                n,
            )[pi]) == (if has_candidate(cat, s, outer, pi, n) {
                Some(want[pi])
            } else {
                None
            }),
    decreases n,
{
    let count = want.len() as int;
    if n > 0 {
        lemma_gather(cat, vols, chunk_size, s, outer, want, n - 1);
        let prev = gather(cat, vols, chunk_size, s, outer, count, n - 1);
        let now = gather(cat, vols, chunk_size, s, outer, count, n);
        let e = cat[n - 1].1;
        assert forall|pi: int| 0 <= pi < count implies (#[trigger] now[pi]) == (if has_candidate(
            cat,
            s,
            outer,
            pi,
            n,
        ) {
            Some(want[pi])
        } else {
            None
        }) by {
            let hit = wanted(e, s, outer) && e.parity_idx == pi;
            if has_candidate(cat, s, outer, pi, n - 1) {
                let i = choose|i: int|
                    0 <= i < n - 1 && wanted((#[trigger] cat[i]).1, s, outer)
                        && cat[i].1.parity_idx == pi;
                assert(0 <= i < n && wanted(cat[i].1, s, outer) && cat[i].1.parity_idx == pi);
                assert(has_candidate(cat, s, outer, pi, n));
                assert(prev[pi] == Some(want[pi]));
            } else if hit {
                assert(wanted(cat[n - 1].1, s, outer) && cat[n - 1].1.parity_idx == pi);
                assert(has_candidate(cat, s, outer, pi, n));
                assert(prev[pi] is None);
            } else {
                if has_candidate(cat, s, outer, pi, n) {
                    let i = choose|i: int|
                        0 <= i < n && wanted((#[trigger] cat[i]).1, s, outer)
                            && cat[i].1.parity_idx == pi;
                    assert(i < n - 1);
                    assert(has_candidate(cat, s, outer, pi, n - 1));
                }
            }
        }
    }
}

/// A set that was encoded, as the encoder and the finishing of its volumes
/// describe it.
pub struct EncodedSet {
    pub paths: Seq<Seq<char>>,
    pub datas: Seq<Seq<u8>>,
    pub cfg: EncoderConfig,
    pub capacities: Seq<usize>,
    pub writers: Seq<VolumeWriter>,
    pub jsons: Seq<Option<Seq<u8>>>,
    /// Which volumes are lost: such a volume gives no entry when it is read.
    pub lost: Seq<bool>,
}

/// The manifest and the volumes are those of the set: the manifest is the
/// one of its files, and its volumes hold the parity stream of the files.
/// Each volume that is not lost was finished into its place in `vols`, and
/// the limits admit its index; each lost volume gives no entry.
pub open spec fn encoded_set(mf: Manifest, vols: Seq<Seq<u8>>, limits: IndexLimits, set: EncodedSet) -> bool {
    &&& manifest_of(mf, set.paths, set.datas, set.cfg)
    &&& first_unsafe_in(set.paths, set.paths.len() as int) is None
    &&& set.cfg.config_error() is None
    &&& set.cfg.m() > 0
    &&& encoded_stripes(set.datas, set.cfg) <= u32::MAX
    &&& set.capacities.len() == set.cfg.volumes
    &&& stored(
        set.writers,
        set.cfg.stripe_k as u32,
        set.cfg.m() as u32,
        set.capacities,
        encoded_stream(set.datas, set.cfg),
    )
    &&& shards_shaped(set.datas, set.cfg)
    &&& vols.len() == set.writers.len()
    &&& vols.len() == set.jsons.len()
    &&& vols.len() == set.lost.len()
    &&& forall|v: int|
        0 <= v < vols.len() ==> {
            let w = #[trigger] set.writers[v];
            if set.lost[v] {
                entries_of(vols[v], limits).len() == 0
            } else {
                &&& w.reads_back(set.jsons[v], vols[v])
                &&& index_bytes(w.entries@, true).len() <= limits.max_uncompressed_bytes
                &&& w.entries@.len() <= limits.max_entries
            }
        }
}

/// No volume of the set is lost.
pub open spec fn all_volumes_there(set: EncodedSet) -> bool {
    forall|v: int| 0 <= v < set.lost.len() ==> !#[trigger] set.lost[v]
}

/// A finished volume of the set gives its index back, and each shard that
/// one of its entries holds can be read from it.
proof fn lemma_volume_reads(
    mf: Manifest,
    vols: Seq<Seq<u8>>,
    limits: IndexLimits,
    set: EncodedSet,
    v: int,
)
    requires
        encoded_set(mf, vols, limits, set),
        0 <= v < vols.len(),
        !set.lost[v],
    ensures
        entries_of(vols[v], limits) == set.writers[v].entries@,
        forall|j: int, sh: ShardModel| #[trigger]
            holds_shard(set.writers[v], j, sh) && sh.bytes.len() == set.cfg.chunk_size
                ==> read_shard(vols[v], set.writers[v].entries@[j], set.cfg.chunk_size as nat)
                == Some(sh.bytes),
{
    let w = set.writers[v];
    let vol = vols[v];
    let cs = set.cfg.chunk_size as nat;
    assert(w.reads_back(set.jsons[v], vol));
    assert(volume_index(vol, limits) == Ok::<Seq<VolumeEntry>, IndexError>(
        w.entries@,
    ));
    assert forall|j: int, sh: ShardModel| #[trigger]
        holds_shard(w, j, sh) && sh.bytes.len() == cs implies read_shard(vol, w.entries@[j], cs)
        == Some(sh.bytes) by {
        let e = w.entries@[j];
        assert(shard_bytes(vol, e) == shard_bytes(w.image@, e));
        assert(laid_out(vol, w.entries@));
        assert(e.offset + e.len <= bodies_end(w.entries@));
        assert(zero_padded(sh.bytes, cs) =~= sh.bytes);
    }
}

/// The parity shards of stripe `s` as the encoder computed them: the inner
/// ones, or the outer ones.
pub open spec fn parity_of(set: EncodedSet, s: int, outer: bool) -> Seq<Seq<u8>> {
    let cs = set.cfg.chunk_size as int;
    let order = encoded_order(set.datas, set.cfg);
    let k = set.cfg.stripe_k as int;
    if outer {
        outer_shards(set.datas, cs, order, k, set.cfg.m(), set.cfg.o(), s)
    } else {
        inner_shards(set.datas, cs, order, k, set.cfg.m(), s)
    }
}

/// Number of inner or outer parity shards per stripe.
pub open spec fn parity_width(set: EncodedSet, outer: bool) -> int {
    if outer {
        set.cfg.o()
    } else {
        set.cfg.m()
    }
}

/// The shard `r` of the stream of stripe `s`, as the entry of an inner or
/// outer parity shard of a stripe describes it.
proof fn lemma_stripe_shard(set: EncodedSet, s: int, r: int)
    requires
        0 <= s < encoded_stripes(set.datas, set.cfg),
        set.cfg.config_error() is None,
        set.cfg.m() > 0,
        encoded_stripes(set.datas, set.cfg) <= u32::MAX,
        shards_shaped(set.datas, set.cfg),
        0 <= r < set.cfg.m() + set.cfg.o(),
    ensures
        ({
            let cfg = set.cfg;
            let sh = stripe_stream(
                set.datas,
                cfg.chunk_size as int,
                encoded_order(set.datas, cfg),
                cfg.stripe_k as int,
                cfg.m(),
                cfg.o(),
                s,
            )[r];
            &&& sh.bytes.len() == cfg.chunk_size
            &&& r < cfg.m() ==> sh.stripe == s && sh.stripe != OUTER_STRIPE && sh.parity_idx == r
                && sh.outer_for_stripe is None && sh.bytes == parity_of(set, s, false)[r]
            &&& r >= cfg.m() ==> sh.stripe == OUTER_STRIPE && sh.parity_idx == r - cfg.m()
                && sh.outer_for_stripe == Some(s as u32) && sh.bytes == parity_of(
                set,
                s,
                true,
            )[r - cfg.m()]
        }),
{
    let cfg = set.cfg;
    let cs = cfg.chunk_size as int;
    let k = cfg.stripe_k as int;
    let m = cfg.m();
    let o = cfg.o();
    let order = encoded_order(set.datas, cfg);
    assert(stripe_shaped(set.datas, cs, order, k, m, o, s));
    let inner = inner_shards(set.datas, cs, order, k, m, s);
    let outer = outer_shards(set.datas, cs, order, k, m, o, s);
    let sh = stripe_stream(set.datas, cs, order, k, m, o, s)[r];
    if r < m {
        assert(sh == inner_models(inner, s)[r]);
    } else {
        assert(sh == outer_models(outer, s)[r - m]);
    }
}

/// An entry of the catalog that describes a parity shard of stripe `s` holds
/// the shard that the encoder computed, and the shard can be read.
proof fn lemma_entry_is_shard(
    mf: Manifest,
    vols: Seq<Seq<u8>>,
    limits: IndexLimits,
    set: EncodedSet,
    s: int,
    outer: bool,
    v: int,
    e: VolumeEntry,
)
    requires
        encoded_set(mf, vols, limits, set),
        0 <= s < encoded_stripes(set.datas, set.cfg),
        0 <= v < vols.len(),
        entries_of(vols[v], limits).contains(e),
        wanted(e, s as u32, outer),
        e.parity_idx < parity_width(set, outer),
    ensures
        read_shard(vols[v], e, set.cfg.chunk_size as nat) == Some(
            parity_of(set, s, outer)[e.parity_idx as int],
        ),
{
    let cfg = set.cfg;
    let cs = cfg.chunk_size as int;
    let k = cfg.stripe_k as int;
    let m = cfg.m();
    let o = cfg.o();
    let order = encoded_order(set.datas, cfg);
    let stripes = encoded_stripes(set.datas, cfg);
    let stream = encoded_stream(set.datas, cfg);
    let caps = set.capacities;
    let w = set.writers[v];
    assert(entries_of(vols[v], limits).len() > 0);
    assert(!set.lost[v]);
    lemma_volume_reads(mf, vols, limits, set, v);
    assert(w.entries@.contains(e));
    let j = choose|j: int| 0 <= j < w.entries@.len() && w.entries@[j] == e;
    lemma_rank_onto(caps, stream.len(), v, j);
    let x = choose|x: int|
        0 <= x < stream.len() && place_of(caps, x as nat) == v && #[trigger] placed_on(
            caps,
            x as nat,
            v,
        ) == j;
    let sh = stream[x];
    assert(holds_shard(w, j, sh));
    assert(stream == stream_upto(set.datas, cs, order, k, m, o, stripes));
    assert forall|y: int| 0 <= y < stripes implies #[trigger] stripe_shaped(
        set.datas,
        cs,
        order,
        k,
        m,
        o,
        y,
    ) by {}
    lemma_stream_only(set.datas, cs, order, k, m, o, stripes, x);
    let (s2, r) = choose|s2: int, r: int|
        0 <= s2 < stripes && 0 <= r < m + o && #[trigger] stripe_stream(
            set.datas,
            cs,
            order,
            k,
            m,
            o,
            s2,
        )[r] == sh;
    lemma_stripe_shard(set, s2, r);
    if r < m {
        assert(sh.stripe == s2 as u32);
        assert(!outer);
        assert(s2 == s);
    } else {
        assert(outer);
        assert(sh.outer_for_stripe == Some(s2 as u32));
        assert(s2 == s);
    }
    assert(holds_shard(w, j, sh) && sh.bytes.len() == cfg.chunk_size);
}

/// Where no volume is lost, every parity shard of stripe `s` has an entry in
/// the catalog.
proof fn lemma_shard_has_entry(
    mf: Manifest,
    vols: Seq<Seq<u8>>,
    limits: IndexLimits,
    set: EncodedSet,
    s: int,
    outer: bool,
    pi: int,
)
    requires
        encoded_set(mf, vols, limits, set),
        all_volumes_there(set),
        vols.len() <= usize::MAX,
        0 <= s < encoded_stripes(set.datas, set.cfg),
        0 <= pi < parity_width(set, outer),
    ensures
        has_candidate(
            catalog(vols, limits, vols.len() as int),
            s as u32,
            outer,
            pi,
            catalog(vols, limits, vols.len() as int).len() as int,
        ),
{
    let cfg = set.cfg;
    let cs = cfg.chunk_size as int;
    let k = cfg.stripe_k as int;
    let m = cfg.m();
    let o = cfg.o();
    let order = encoded_order(set.datas, cfg);
    let stripes = encoded_stripes(set.datas, cfg);
    let stream = encoded_stream(set.datas, cfg);
    let caps = set.capacities;
    let cat = catalog(vols, limits, vols.len() as int);
    let r = if outer {
        m + pi
    } else {
        pi
    };
    let sh = stripe_stream(set.datas, cs, order, k, m, o, s)[r];
    lemma_stripe_shard(set, s, r);
    assert(stream == stream_upto(set.datas, cs, order, k, m, o, stripes));
    assert forall|y: int| 0 <= y < stripes implies #[trigger] stripe_shaped(
        set.datas,
        cs,
        order,
        k,
        m,
        o,
        y,
    ) by {}
    lemma_stream_all(set.datas, cs, order, k, m, o, stripes, s, r);
    let x = choose|x: int| 0 <= x < stream.len() && stream[x] == sh;
    lemma_state_after_ok(caps, x as nat);
    let v = place_of(caps, x as nat);
    let j = placed_on(caps, x as nat, v) as int;
    let w = set.writers[v];
    assert(holds_shard(w, j, stream[x]));
    let e = w.entries@[j];
    assert(!set.lost[v]);
    lemma_volume_reads(mf, vols, limits, set, v);
    assert(entries_of(vols[v], limits)[j] == e);
    lemma_catalog_members(vols, limits, vols.len() as int);
    assert(cat.contains((v as usize, e)));
    let i = choose|i: int| 0 <= i < cat.len() && cat[i] == (v as usize, e);
    assert(wanted(cat[i].1, s as u32, outer) && cat[i].1.parity_idx == pi);
}

/// The repairer finds the parity of a set: every parity shard that it
/// gathers for stripe `s` is the shard that the encoder computed, and where
/// no volume is lost it gathers them all.
pub proof fn lemma_gathers(
    mf: Manifest,
    vols: Seq<Seq<u8>>,
    limits: IndexLimits,
    set: EncodedSet,
    s: int,
    outer: bool,
)
    requires
        encoded_set(mf, vols, limits, set),
        vols.len() <= usize::MAX,
        0 <= s < encoded_stripes(set.datas, set.cfg),
        outer ==> set.cfg.o() > 0,
    ensures
        ({
            let got = gather(
                catalog(vols, limits, vols.len() as int),
                vols,
                set.cfg.chunk_size as nat,
                s as u32,
                outer,
                parity_width(set, outer),
                catalog(vols, limits, vols.len() as int).len() as int,
            );
            let want = parity_of(set, s, outer);
            &&& got.len() == parity_width(set, outer)
            &&& want.len() == parity_width(set, outer)
            &&& forall|pi: int|
                0 <= pi < got.len() ==> ((#[trigger] got[pi]) matches Some(b) ==> b == want[pi])
            &&& all_volumes_there(set) ==> got == all_present(want)
        }),
{
    let cfg = set.cfg;
    let cs = cfg.chunk_size as int;
    let cat = catalog(vols, limits, vols.len() as int);
    let want = parity_of(set, s, outer);
    let width = parity_width(set, outer);
    assert(stripe_shaped(
        set.datas,
        cs,
        encoded_order(set.datas, cfg),
        cfg.stripe_k as int,
        cfg.m(),
        cfg.o(),
        s,
    ));
    assert(want.len() == width);
    lemma_catalog_members(vols, limits, vols.len() as int);
    assert forall|i: int|
        0 <= i < cat.len() && wanted((#[trigger] cat[i]).1, s as u32, outer) && cat[i].1.parity_idx
            < want.len() implies read_shard(vols[cat[i].0 as int], cat[i].1, cs as nat) == Some(
        want[cat[i].1.parity_idx as int],
    ) by {
        lemma_entry_is_shard(mf, vols, limits, set, s, outer, cat[i].0 as int, cat[i].1);
    }
    lemma_gather(cat, vols, cs as nat, s as u32, outer, want, cat.len() as int);
    let got = gather(cat, vols, cs as nat, s as u32, outer, width, cat.len() as int);
    if all_volumes_there(set) {
        assert forall|pi: int| 0 <= pi < width implies got[pi] == Some(want[pi]) by {
            lemma_shard_has_entry(mf, vols, limits, set, s, outer, pi);
        }
        assert(got =~= all_present(want));
    }
}

/// Stripe `s` has enough shards left to be reconstructed: K of its data and
/// inner parity shards are found; or there is outer parity, M of its inner
/// and outer parity shards are found, and no more than M of its data shards
/// are missing.
pub open spec fn enough(
    mf: Manifest,
    files: Seq<Option<Seq<u8>>>,
    vols: Seq<Seq<u8>>,
    limits: IndexLimits,
    s: int,
) -> bool {
    let k = mf.stripe_k as int;
    let m = parity_count(k, mf.parity_pct as int);
    ||| present_count(first_try(mf, files, vols, limits, s)) >= k
    ||| mf.outer_parity > 0 && present_count(parity_try(mf, files, vols, limits, s)) >= m
        && present_count(data_slots(mf, files, s)) + m >= k
}

/// The damage is within what the code can give back: the files carry no
/// change that the digests do not show, and every stripe with a damaged
/// chunk has enough shards left.
pub open spec fn damage_within(
    mf: Manifest,
    files: Seq<Option<Seq<u8>>>,
    vols: Seq<Seq<u8>>,
    limits: IndexLimits,
    set: EncodedSet,
) -> bool {
    &&& files.len() == set.datas.len()
    &&& forall|fi: int, ci: int| #[trigger]
        valid_ref(mf, fi, ci) ==> !chunk_intact(
            files[fi],
            mf.files@[fi].chunks@[ci],
            mf.chunk_size as nat,
        ) || window(files[fi], mf.files@[fi].chunks@[ci]) == Some(
            chunk_data(set.datas[fi], set.cfg.chunk_size as int, ci),
        )
    &&& forall|s: int|
        0 <= s < encoded_stripes(set.datas, set.cfg) && stripe_damaged(mf, files, s)
            ==> #[trigger] enough(mf, files, vols, limits, s)
}

/// Every chunk of every file holds the bytes that it held when the set was
/// encoded.
pub open spec fn restored(mf: Manifest, files: Seq<Option<Seq<u8>>>, set: EncodedSet) -> bool {
    &&& files.len() == set.datas.len()
    &&& forall|fi: int, ci: int| #[trigger]
        valid_ref(mf, fi, ci) ==> window(files[fi], mf.files@[fi].chunks@[ci]) == Some(
            chunk_data(set.datas[fi], set.cfg.chunk_size as int, ci),
        )
}

/// The number of shards present in two runs of shards is the sum of the
/// numbers present in each.
proof fn lemma_present_concat(a: Seq<Option<Seq<u8>>>, b: Seq<Option<Seq<u8>>>)
    ensures
        present_count(a + b) == present_count(a) + present_count(b),
    decreases b.len(),
{
    if b.len() == 0 {
        assert(a + b =~= a);
    } else {
        lemma_present_concat(a, b.drop_last());
        assert((a + b).drop_last() =~= a + b.drop_last());
        assert((a + b).last() == b.last());
    }
}

/// Shards that are all there are all counted.
proof fn lemma_present_all(w: Seq<Seq<u8>>)
    ensures
        present_count(all_present(w)) == w.len(),
    decreases w.len(),
{
    if w.len() > 0 {
        lemma_present_all(w.drop_last());
        assert(all_present(w).drop_last() =~= all_present(w.drop_last()));
    }
}

/// The stripe of a chunk is one of the stripes, and the chunk has a slot in
/// it.
proof fn lemma_stripe_of(total: int, k: int, g: int)
    requires
        0 < k,
        0 <= g < total,
    ensures
        0 <= g / k < stripe_count(total, k),
        0 <= g % k < k,
        (g / k) * k + g % k == g,
{
    vstd::arithmetic::div_mod::lemma_fundamental_div_mod(g, k);
    vstd::arithmetic::div_mod::lemma_mod_bound(g, k);
    let s = g / k;
    assert(k * s == s * k) by (nonlinear_arith);
    assert(s >= 0) by (nonlinear_arith)
        requires
            g >= 0,
            k > 0,
            s == g / k,
    ;
    let x = total + k - 1;
    let q = x / k;
    vstd::arithmetic::div_mod::lemma_fundamental_div_mod(x, k);
    vstd::arithmetic::div_mod::lemma_mod_bound(x, k);
    assert(s < q) by (nonlinear_arith)
        requires
            s * k <= g,
            g < total,
            x == k * q + x % k,
            0 <= x % k < k,
            x == total + k - 1,
            k > 0,
    ;
}

/// The data shards of a stripe that are there are those of the set, and the
/// data shards of the set all have the chunk size.
proof fn lemma_data_slots(
    mf: Manifest,
    files: Seq<Option<Seq<u8>>>,
    vols: Seq<Seq<u8>>,
    limits: IndexLimits,
    set: EncodedSet,
    s: int,
)
    requires
        encoded_set(mf, vols, limits, set),
        damage_within(mf, files, vols, limits, set),
        0 <= s < encoded_stripes(set.datas, set.cfg),
    ensures
        ({
            let cs = set.cfg.chunk_size as int;
            let k = set.cfg.stripe_k as int;
            let d = stripe_data(set.datas, cs, encoded_order(set.datas, set.cfg), k, s);
            let slots = data_slots(mf, files, s);
            &&& d.len() == k
            &&& slots.len() == k
            &&& uniform(d)
            &&& forall|x: int| 0 <= x < k ==> ((#[trigger] slots[x]) matches Some(b) ==> b == d[x])
        }),
{
    let cfg = set.cfg;
    let datas = set.datas;
    let cs = cfg.chunk_size as int;
    let k = cfg.stripe_k as int;
    let order = encoded_order(datas, cfg);
    let total = mf.total_chunks as int;
    lemma_manifest_chunks(mf, set.paths, datas, cfg);
    let d = stripe_data(datas, cs, order, k, s);
    let slots = data_slots(mf, files, s);
    assert forall|x: int| 0 <= x < k implies ((#[trigger] slots[x]) matches Some(b) ==> b == d[x]) by {
        let gx = s * k + x;
        assert(slots[x] == data_slot(mf, files, gx));
        if gx < total {
            let r = ref_at(mf, gx);
            assert(valid_ref(mf, r.0, r.1));
            if !damaged_at(mf, files, gx) {
                assert(order[gx] == (r.0 as usize, r.1 as usize));
                assert(global_chunk(datas, cs, order, gx) == chunk_data(datas[r.0], cs, r.1));
            }
        }
    }
    assert(uniform(d)) by {
        assert forall|x: int| 0 <= x < d.len() implies (#[trigger] d[x]).len() == d[0].len() by {}
    }
}

/// A stripe of a set that has enough shards left is reconstructed as the
/// encoder had it: the repair gives its data shards and its inner parity.
proof fn lemma_stripe_rec(
    mf: Manifest,
    files: Seq<Option<Seq<u8>>>,
    vols: Seq<Seq<u8>>,
    limits: IndexLimits,
    set: EncodedSet,
    s: int,
)
    requires
        encoded_set(mf, vols, limits, set),
        damage_within(mf, files, vols, limits, set),
        vols.len() <= usize::MAX,
        0 <= s < encoded_stripes(set.datas, set.cfg),
        enough(mf, files, vols, limits, s),
        restores_at(mf, files, vols, limits, s),
    ensures
        stripe_rec(mf, files, vols, limits, s).1 == Some(
            stripe_data(
                set.datas,
                set.cfg.chunk_size as int,
                encoded_order(set.datas, set.cfg),
                set.cfg.stripe_k as int,
                s,
            ) + parity_of(set, s, false),
        ),
        stripe_rec(mf, files, vols, limits, s).0 != StripeOutcome::Unrepairable,
        stripe_rec(mf, files, vols, limits, s).0 != StripeOutcome::Untouched,
{
    let cfg = set.cfg;
    let datas = set.datas;
    let cs = cfg.chunk_size as int;
    let k = cfg.stripe_k as int;
    let m = cfg.m();
    let o = cfg.o();
    let order = encoded_order(datas, cfg);
    lemma_manifest_chunks(mf, set.paths, datas, cfg);
    lemma_data_slots(mf, files, vols, limits, set, s);
    lemma_gathers(mf, vols, limits, set, s, false);
    let cat = catalog(vols, limits, vols.len() as int);
    let d = stripe_data(datas, cs, order, k, s);
    let p = parity_of(set, s, false);
    let slots = data_slots(mf, files, s);
    let inner = gather(cat, vols, cs as nat, s as u32, false, m, cat.len() as int);
    let outer = gather(cat, vols, cs as nat, s as u32, true, o, cat.len() as int);
    let first = first_try(mf, files, vols, limits, s);
    assert(first == slots + inner);
    assert(stripe_shaped(datas, cs, order, k, m, o, s));
    assert(p == rs_parity(k, m, d));
    if present_count(first) >= k {
        assert(survivors_of(k, m, d, first)) by {
            assert forall|x: int| 0 <= x < k + m implies ((#[trigger] first[x]) matches Some(b)
                ==> b == (d + rs_parity(k, m, d))[x]) by {
                if x < k {
                    assert(first[x] == slots[x]);
                } else {
                    assert(first[x] == inner[x - k]);
                }
            }
        }
        assert(restores(k, m, first));
    } else {
        lemma_gathers(mf, vols, limits, set, s, true);
        let q = parity_of(set, s, true);
        assert(q == rs_parity(m, o, p));
        let both = parity_try(mf, files, vols, limits, s);
        assert(both == inner + outer);
        assert(uniform(p)) by {
            assert forall|x: int| 0 <= x < p.len() implies (#[trigger] p[x]).len() == p[0].len() by {}
        }
        assert(survivors_of(m, o, p, both)) by {
            assert forall|x: int| 0 <= x < m + o implies ((#[trigger] both[x]) matches Some(b)
                ==> b == (p + rs_parity(m, o, p))[x]) by {
                if x < m {
                    assert(both[x] == inner[x]);
                } else {
                    assert(both[x] == outer[x - m]);
                }
            }
        }
        assert(restores(m, o, both));
        assert(rs_reconstructed(m, o, both) == p + q);
        assert((p + q).subrange(0, m) =~= p);
        let second = second_try(mf, files, vols, limits, s);
        assert(second == slots + all_present(p));
        lemma_present_concat(slots, all_present(p));
        lemma_present_all(p);
        assert(present_count(second) >= k);
        assert(survivors_of(k, m, d, second)) by {
            assert forall|x: int| 0 <= x < k + m implies ((#[trigger] second[x]) matches Some(b)
                ==> b == (d + rs_parity(k, m, d))[x]) by {
                if x < k {
                    assert(second[x] == slots[x]);
                } else {
                    assert(second[x] == all_present(p)[x - k]);
                }
            }
        }
        assert(restores(k, m, second));
    }
}

/// For a damaged chunk of a set that was encoded and is damaged within what
/// the code can give back, the repairer has the bytes that the chunk held.
proof fn lemma_chunk_fix(
    mf: Manifest,
    files: Seq<Option<Seq<u8>>>,
    vols: Seq<Seq<u8>>,
    limits: IndexLimits,
    set: EncodedSet,
    g: int,
)
    requires
        encoded_set(mf, vols, limits, set),
        damage_within(mf, files, vols, limits, set),
        vols.len() <= usize::MAX,
        0 <= g < mf.total_chunks,
        damaged_at(mf, files, g),
        restores_at(mf, files, vols, limits, g / (mf.stripe_k as int)),
    ensures
        chunk_fix(mf, files, vols, limits, g) == Some(
            chunk_data(set.datas[ref_at(mf, g).0], set.cfg.chunk_size as int, ref_at(mf, g).1),
        ),
        placeable(mf, ref_at(mf, g).0, ref_at(mf, g).1),
{
    let cfg = set.cfg;
    let datas = set.datas;
    let cs = cfg.chunk_size as int;
    let k = cfg.stripe_k as int;
    let order = encoded_order(datas, cfg);
    let total = mf.total_chunks as int;
    lemma_manifest_chunks(mf, set.paths, datas, cfg);
    lemma_stripe_of(total, k, g);
    let s = g / k;
    let i = g % k;
    assert(slot_damaged(mf, files, s, i));
    assert(stripe_damaged(mf, files, s));
    lemma_stripe_rec(mf, files, vols, limits, set, s);
    let d = stripe_data(datas, cs, order, k, s);
    let p = parity_of(set, s, false);
    let r = ref_at(mf, g);
    let c = mf.files@[r.0].chunks@[r.1];
    assert(valid_ref(mf, r.0, r.1));
    assert(order[g] == (r.0 as usize, r.1 as usize));
    assert((d + p)[i] == d[i]);
    assert(d[i] == zero_padded(global_chunk(datas, cs, order, g), cs as nat));
    assert(global_chunk(datas, cs, order, g) == chunk_data(datas[r.0], cs, r.1));
    assert(d[i].subrange(0, c.len as int) =~= chunk_data(datas[r.0], cs, r.1));
}

/// Where no volume of the set is lost, a stripe with no more damaged chunks
/// than there are parity shards per stripe has enough shards left.
pub proof fn lemma_intact_volumes_enough(
    mf: Manifest,
    files: Seq<Option<Seq<u8>>>,
    vols: Seq<Seq<u8>>,
    limits: IndexLimits,
    set: EncodedSet,
    s: int,
)
    requires
        encoded_set(mf, vols, limits, set),
        all_volumes_there(set),
        vols.len() <= usize::MAX,
        0 <= s < encoded_stripes(set.datas, set.cfg),
        present_count(data_slots(mf, files, s)) + set.cfg.m() >= set.cfg.stripe_k,
    ensures
        enough(mf, files, vols, limits, s),
{
    lemma_manifest_chunks(mf, set.paths, set.datas, set.cfg);
    lemma_gathers(mf, vols, limits, set, s, false);
    let p = parity_of(set, s, false);
    lemma_present_concat(data_slots(mf, files, s), all_present(p));
    lemma_present_all(p);
}

/// What holds of the repair when the chunks below `n` were handled: nothing
/// failed, and every chunk that was handled or was not damaged holds the
/// bytes that it held when the set was encoded.
pub open spec fn good_upto(
    mf: Manifest,
    files: Seq<Option<Seq<u8>>>,
    set: EncodedSet,
    st: RepairModel,
    n: int,
) -> bool {
    &&& st.files.len() == files.len()
    &&& st.failed == 0
    &&& st.repaired == damage_in(mf, files, 0, n)
    &&& forall|fi: int, ci: int| #[trigger]
        valid_ref(mf, fi, ci) && (idx_of(mf, fi, ci) < n || !damaged_at(
            mf,
            files,
            idx_of(mf, fi, ci),
        )) ==> window(st.files[fi], mf.files@[fi].chunks@[ci]) == Some(
            chunk_data(set.datas[fi], set.cfg.chunk_size as int, ci),
        )
}

/// Two chunks of one file do not overlap.
proof fn lemma_chunks_apart(chunk_size: int, a: int, b: int)
    requires
        0 < chunk_size,
        0 <= a < b,
    ensures
        a * chunk_size + chunk_size <= b * chunk_size,
{
    assert(a * chunk_size + chunk_size <= b * chunk_size) by (nonlinear_arith)
        requires
            0 < chunk_size,
            a + 1 <= b,
    ;
}

/// Writing a chunk into a file puts its bytes there and leaves every other
/// chunk of the file that was there as it was.
proof fn lemma_edit_keeps(
    file: Option<Seq<u8>>,
    size: int,
    off: int,
    bytes: Seq<u8>,
    other_off: int,
    other_len: int,
)
    requires
        0 <= off,
        off + bytes.len() <= size,
        0 <= other_off,
        0 <= other_len,
        other_off + other_len <= size,
        other_off + other_len <= off || off + bytes.len() <= other_off,
        file matches Some(d) && other_off + other_len <= d.len(),
    ensures
        apply_edit(file, size, off, bytes).subrange(off, off + bytes.len()) == bytes,
        apply_edit(file, size, off, bytes).len() >= other_off + other_len,
        apply_edit(file, size, off, bytes).subrange(other_off, other_off + other_len)
            == file->0.subrange(other_off, other_off + other_len),
{
    let out = apply_edit(file, size, off, bytes);
    assert(out.subrange(off, off + bytes.len()) =~= bytes);
    assert(out.subrange(other_off, other_off + other_len) =~= file->0.subrange(
        other_off,
        other_off + other_len,
    ));
}

/// Writing a chunk into a file, there or not, puts its bytes there.
proof fn lemma_edit_writes(file: Option<Seq<u8>>, size: int, off: int, bytes: Seq<u8>)
    requires
        0 <= off,
        off + bytes.len() <= size,
    ensures
        apply_edit(file, size, off, bytes).len() >= off + bytes.len(),
        apply_edit(file, size, off, bytes).subrange(off, off + bytes.len()) == bytes,
{
    let out = apply_edit(file, size, off, bytes);
    assert(out.subrange(off, off + bytes.len()) =~= bytes);
}

/// Handling the chunks in global order restores them one by one.
proof fn lemma_repair_upto(
    mf: Manifest,
    files: Seq<Option<Seq<u8>>>,
    vols: Seq<Seq<u8>>,
    limits: IndexLimits,
    set: EncodedSet,
    n: int,
)
    requires
        encoded_set(mf, vols, limits, set),
        damage_within(mf, files, vols, limits, set),
        vols.len() <= usize::MAX,
        0 <= n <= mf.total_chunks,
        forall|s: int|
            0 <= s < stripe_count(mf.total_chunks as int, mf.stripe_k as int) && stripe_damaged(
                mf,
                files,
                s,
            ) ==> #[trigger] restores_at(mf, files, vols, limits, s),
    ensures
        good_upto(mf, files, set, repair_upto(mf, files, vols, limits, n), n),
    decreases n,
{
    let cfg = set.cfg;
    let datas = set.datas;
    let cs = cfg.chunk_size as int;
    let k = cfg.stripe_k as int;
    lemma_manifest_chunks(mf, set.paths, datas, cfg);
    lemma_encoded_set_verifies(mf, set.paths, datas, cfg);
    let st = repair_upto(mf, files, vols, limits, n);
    if n == 0 {
        assert forall|fi: int, ci: int| #[trigger]
            valid_ref(mf, fi, ci) && (idx_of(mf, fi, ci) < 0 || !damaged_at(
                mf,
                files,
                idx_of(mf, fi, ci),
            )) implies window(st.files[fi], mf.files@[fi].chunks@[ci]) == Some(
            chunk_data(datas[fi], cs, ci),
        ) by {
            let g = idx_of(mf, fi, ci);
            let r = ref_at(mf, g);
            assert(valid_ref(mf, r.0, r.1) && idx_of(mf, r.0, r.1) == g);
            assert(r.0 == fi && r.1 == ci);
        }
    } else {
        lemma_repair_upto(mf, files, vols, limits, set, n - 1);
        let prev = repair_upto(mf, files, vols, limits, n - 1);
        let g = n - 1;
        let r = ref_at(mf, g);
        assert(valid_ref(mf, r.0, r.1) && idx_of(mf, r.0, r.1) == g);
        if damaged_at(mf, files, g) {
            lemma_stripe_of(mf.total_chunks as int, k, g);
            let s = g / k;
            assert(slot_damaged(mf, files, s, g % k));
            assert(stripe_damaged(mf, files, s));
            lemma_chunk_fix(mf, files, vols, limits, set, g);
            let c = mf.files@[r.0].chunks@[r.1];
            let b = chunk_data(datas[r.0], cs, r.1);
            let size = mf.files@[r.0].size as int;
            let off = c.file_offset as int;
            assert(b.len() == c.len);
            lemma_edit_writes(prev.files[r.0], size, off, b);
            assert forall|fi: int, ci: int| #[trigger]
                valid_ref(mf, fi, ci) && (idx_of(mf, fi, ci) < n || !damaged_at(
                    mf,
                    files,
                    idx_of(mf, fi, ci),
                )) implies window(st.files[fi], mf.files@[fi].chunks@[ci]) == Some(
                chunk_data(datas[fi], cs, ci),
            ) by {
                let c2 = mf.files@[fi].chunks@[ci];
                if fi == r.0 && ci == r.1 {
                } else if fi == r.0 {
                    assert(idx_of(mf, fi, ci) != g);
                    assert(window(prev.files[fi], c2) == Some(chunk_data(datas[fi], cs, ci)));
                    if ci < r.1 {
                        lemma_chunks_apart(cs, ci, r.1);
                    } else {
                        lemma_chunks_apart(cs, r.1, ci);
                    }
                    lemma_edit_keeps(
                        prev.files[fi],
                        size,
                        off,
                        b,
                        c2.file_offset as int,
                        c2.len as int,
                    );
                } else {
                    assert(st.files[fi] == prev.files[fi]);
                }
            }
        } else {
            assert forall|fi: int, ci: int| #[trigger]
                valid_ref(mf, fi, ci) && (idx_of(mf, fi, ci) < n || !damaged_at(
                    mf,
                    files,
                    idx_of(mf, fi, ci),
                )) implies window(st.files[fi], mf.files@[fi].chunks@[ci]) == Some(
                chunk_data(datas[fi], cs, ci),
            ) by {}
        }
    }
}

/// A repair restores a set that was encoded. Where the manifest and the
/// volumes are those of a set, the files carry no change that the digests do
/// not show, and every stripe with a damaged chunk has enough shards left,
/// the repair leaves every chunk of every file with the bytes that it held
/// when the set was encoded, no chunk fails, and the files verify again. The
/// reconstructions of the stripes are taken as the codec documents them: each
/// gives back the data of which its shards are what is left.
pub proof fn lemma_repair_restores(
    mf: Manifest,
    files: Seq<Option<Seq<u8>>>,
    vols: Seq<Seq<u8>>,
    limits: IndexLimits,
    set: EncodedSet,
)
    requires
        encoded_set(mf, vols, limits, set),
        damage_within(mf, files, vols, limits, set),
        vols.len() <= usize::MAX,
        forall|s: int|
            0 <= s < stripe_count(mf.total_chunks as int, mf.stripe_k as int) && stripe_damaged(
                mf,
                files,
                s,
            ) ==> #[trigger] restores_at(mf, files, vols, limits, s),
    ensures
        restored(mf, repair_upto(mf, files, vols, limits, mf.total_chunks as int).files, set),
        repair_upto(mf, files, vols, limits, mf.total_chunks as int).failed == 0,
        repair_upto(mf, files, vols, limits, mf.total_chunks as int).repaired == damage_in(
            mf,
            files,
            0,
            mf.total_chunks as int,
        ),
        verifies_as(mf, repair_upto(mf, files, vols, limits, mf.total_chunks as int).files),
{
    lemma_manifest_chunks(mf, set.paths, set.datas, set.cfg);
    lemma_repair_upto(mf, files, vols, limits, set, mf.total_chunks as int);
    lemma_restored_verifies(
        mf,
        set.paths,
        set.datas,
        set.cfg,
        repair_upto(mf, files, vols, limits, mf.total_chunks as int).files,
    );
}

/// Repairing files of which no chunk is damaged changes nothing and counts
/// nothing.
pub proof fn lemma_repair_of_intact(
    mf: Manifest,
    files: Seq<Option<Seq<u8>>>,
    vols: Seq<Seq<u8>>,
    limits: IndexLimits,
    n: int,
)
    requires
        forall|g: int| 0 <= g < n ==> !#[trigger] damaged_at(mf, files, g),
    ensures
        repair_upto(mf, files, vols, limits, n) == (RepairModel { files, repaired: 0, failed: 0 }),
    decreases n,
{
    if n > 0 {
        lemma_repair_of_intact(mf, files, vols, limits, n - 1);
        assert(!damaged_at(mf, files, n - 1));
    }
}

/// Repairing a second time repairs nothing more: after a repair that restored
/// a set, another repair, from any volumes, leaves the files as they are and
/// counts no chunk as repaired or failed.
pub proof fn lemma_second_repair_is_idle(
    mf: Manifest,
    restored_files: Seq<Option<Seq<u8>>>,
    vols: Seq<Seq<u8>>,
    limits: IndexLimits,
    set: EncodedSet,
)
    requires
        manifest_of(mf, set.paths, set.datas, set.cfg),
        first_unsafe_in(set.paths, set.paths.len() as int) is None,
        restored(mf, restored_files, set),
    ensures
        repair_upto(mf, restored_files, vols, limits, mf.total_chunks as int) == (RepairModel {
            files: restored_files,
            repaired: 0,
            failed: 0,
        }),
{
    lemma_restored_verifies(mf, set.paths, set.datas, set.cfg, restored_files);
    lemma_manifest_chunks(mf, set.paths, set.datas, set.cfg);
    assert forall|g: int| 0 <= g < mf.total_chunks implies !#[trigger] damaged_at(
        mf,
        restored_files,
        g,
    ) by {
        let r = ref_at(mf, g);
        assert(valid_ref(mf, r.0, r.1));
    }
    lemma_repair_of_intact(mf, restored_files, vols, limits, mf.total_chunks as int);
}

} // verus!
