//! The repairer: finds the damaged chunks, reconstructs them stripe by
//! stripe from the chunks that are intact and the parity in the volumes, and
//! writes back those whose digest is the recorded one.

use crate::encode::lemma_stripe_start;
use crate::hash::{
    blake3_digest, blake3_hash, chunk_digest, extend_bytes, hash_chunk, pad_chunk, zero_padded,
};
use crate::index::IndexLimits;
use crate::legacy::survey_volume;
use crate::laws::verifies_as;
use crate::manifest::{parity_count, parity_shards, stripe_count, stripes_for, ChunkRef, Manifest};
use crate::parity_audit::{entries_of, volume_views};
use crate::path_safety::{LinkFacts, PathError, PathPolicy};
use crate::repair_laws::{damage_within, encoded_set, lemma_repair_restores, restored, EncodedSet};
use crate::rs_codec::{
    filled_views, lemma_uniform_not_bad, opt_shard_views, present_count, present_sizes_bad,
    rs_parity, rs_reconstructed, shard_views, survivors_of, valid_params, RsCodec,
};
use crate::text::hex_of;
use crate::verify::{
    check_chunk, check_paths, check_policy, chunk_intact, content_views, count_refs,
    default_policy, digest_is, first_refused, first_unsafe, index_refs, ref_at, refs_of,
    valid_ref, well_indexed, window,
};
use crate::volume::{VolumeEntry, OUTER_STRIPE};
use vstd::prelude::*;
use vstd::slice::{slice_subrange, slice_to_vec};

verus! {

/// What the repairer did.
#[derive(Clone, Copy, Debug, PartialEq, Eq, Structural)]
pub struct RepairReport {
    /// Damaged chunks that were written back intact.
    pub repaired_chunks: u64,
    /// Damaged chunks that are still damaged.
    pub failed_chunks: u64,
}

/// What became of a stripe.
#[derive(Clone, Copy, Debug, PartialEq, Eq, Structural)]
pub enum StripeOutcome {
    /// No chunk of the stripe was damaged.
    Untouched,
    /// The stripe was reconstructed from intact chunks and inner parity.
    InnerRepaired,
    /// Inner parity was first recovered from outer parity, then the stripe
    /// was reconstructed.
    OuterRecovered,
    /// Too few shards are left to reconstruct the stripe.
    Unrepairable,
}

/// Why nothing can be repaired.
#[derive(Clone, Copy, Debug, PartialEq, Eq, Structural)]
pub enum RepairError {
    /// The contents given are not one per file of the manifest.
    FileCount,
    /// A recorded path is absolute or leaves the root.
    UnsafePath(PathError),
    /// The manifest asks for no parity, or its parameters are out of range.
    BadConfig,
    /// The global indices of the manifest are not the numbers from 0 up to
    /// the total number of chunks, each once.
    BadManifest,
}

/// The shard that an index entry of a volume points at, ready for the codec:
/// its bytes, zero-padded to the chunk size. Nothing where the entry points
/// outside the volume, where the shard is longer than a chunk, or where the
/// entry records a digest and the bytes have another.
pub open spec fn read_shard(vol: Seq<u8>, e: VolumeEntry, chunk_size: nat) -> Option<Seq<u8>> {
    if e.offset + e.len > vol.len() || e.len > chunk_size {
        None
    } else {
        let b = vol.subrange(e.offset as int, e.offset + e.len);
        if e.hash is Some && e.hash->0@ != blake3_digest(b) {
            None
        } else {
            Some(zero_padded(b, chunk_size))
        }
    }
}

/// The entries of volume `v`, each with the number of its volume.
pub open spec fn tagged(v: int, entries: Seq<VolumeEntry>) -> Seq<(usize, VolumeEntry)> {
    Seq::new(entries.len(), |i: int| (v as usize, entries[i]))
}

/// The entries of the first `n` volumes, volume after volume, each with the
/// number of its volume. A volume may be of the current layout or of an
/// earlier one; one whose header or index cannot be read has no entries.
pub open spec fn catalog(vols: Seq<Seq<u8>>, limits: IndexLimits, n: int) -> Seq<
    (usize, VolumeEntry),
>
    decreases n,
{
    if n <= 0 {
        Seq::empty()
    } else {
        catalog(vols, limits, n - 1) + tagged(n - 1, entries_of(vols[n - 1], limits))
    }
}

/// The entry describes a parity shard of stripe `s`: an inner one, or an
/// outer one where `outer` is set.
pub open spec fn wanted(e: VolumeEntry, s: u32, outer: bool) -> bool {
    if outer {
        e.stripe == OUTER_STRIPE && e.outer_for_stripe == Some(s)
    } else {
        e.stripe == s && s != OUTER_STRIPE
    }
}

/// The parity shards of stripe `s` found among the first `n` entries of the
/// catalog: for each parity index below `count`, the first shard that can be
/// read.
pub open spec fn gather(
    cat: Seq<(usize, VolumeEntry)>,
    vols: Seq<Seq<u8>>,
    chunk_size: nat,
    s: u32,
    outer: bool,
    count: int,
    n: int,
) -> Seq<Option<Seq<u8>>>
    decreases n,
{
    if n <= 0 {
        Seq::new(count as nat, |j: int| None)
    } else {
        let prev = gather(cat, vols, chunk_size, s, outer, count, n - 1);
        let v = cat[n - 1].0 as int;
        let e = cat[n - 1].1;
        if wanted(e, s, outer) && e.parity_idx < count && prev[e.parity_idx as int] is None
            && read_shard(vols[v], e, chunk_size) is Some {
            prev.update(e.parity_idx as int, read_shard(vols[v], e, chunk_size))
        } else {
            prev
        }
    }
}

/// The chunk with global index `g` is damaged.
pub open spec fn damaged_at(mf: Manifest, files: Seq<Option<Seq<u8>>>, g: int) -> bool {
    let r = ref_at(mf, g);
    !chunk_intact(files[r.0], mf.files@[r.0].chunks@[r.1], mf.chunk_size as nat)
}

/// The data shard for global index `g`: nothing for a damaged chunk, the
/// zero-padded bytes of an intact one, and a zero shard past the last chunk.
pub open spec fn data_slot(mf: Manifest, files: Seq<Option<Seq<u8>>>, g: int) -> Option<Seq<u8>> {
    if g >= mf.total_chunks {
        Some(zero_padded(Seq::empty(), mf.chunk_size as nat))
    } else if damaged_at(mf, files, g) {
        None
    } else {
        let r = ref_at(mf, g);
        Some(
            zero_padded(
                window(files[r.0], mf.files@[r.0].chunks@[r.1])->0,
                mf.chunk_size as nat,
            ),
        )
    }
}

/// The K data shards of stripe `s`.
pub open spec fn data_slots(mf: Manifest, files: Seq<Option<Seq<u8>>>, s: int) -> Seq<
    Option<Seq<u8>>,
> {
    Seq::new(mf.stripe_k as nat, |i: int| data_slot(mf, files, s * mf.stripe_k + i))
}

/// All shards present, as the codec leaves them.
pub open spec fn all_present(shards: Seq<Seq<u8>>) -> Seq<Option<Seq<u8>>> {
    Seq::new(shards.len(), |i: int| Some(shards[i]))
}

/// What becomes of a stripe with damage, and its K + M shards where it can
/// be reconstructed: from data and inner parity where at least K of them are
/// present; else, where there is outer parity and at least M of the inner
/// and outer parity shards are present, from data and the inner parity that
/// the outer code restores, where that makes K; else not at all.
pub open spec fn recover(
    k: int,
    m: int,
    o: int,
    data: Seq<Option<Seq<u8>>>,
    inner: Seq<Option<Seq<u8>>>,
    outer: Seq<Option<Seq<u8>>>,
) -> (StripeOutcome, Option<Seq<Seq<u8>>>) {
    if present_count(data + inner) >= k {
        (StripeOutcome::InnerRepaired, Some(rs_reconstructed(k, m, data + inner)))
    } else if o > 0 && present_count(inner + outer) >= m {
        let restored = all_present(rs_reconstructed(m, o, inner + outer).subrange(0, m));
        if present_count(data + restored) >= k {
            (StripeOutcome::OuterRecovered, Some(rs_reconstructed(k, m, data + restored)))
        } else {
            (StripeOutcome::Unrepairable, None)
        }
    } else {
        (StripeOutcome::Unrepairable, None)
    }
}

/// The contents of a file after the bytes of a chunk were written at `off`:
/// a missing file starts as `size` zero bytes, a short file is extended with
/// zeros up to the end of the chunk, and a file longer than `size` is cut to
/// `size`.
pub open spec fn apply_edit(file: Option<Seq<u8>>, size: int, off: int, bytes: Seq<u8>) -> Seq<u8> {
    let base = match file {
        Some(d) => d,
        None => zero_padded(Seq::empty(), size as nat),
    };
    let len = if base.len() > size {
        size
    } else if base.len() < off + bytes.len() {
        off + bytes.len()
    } else {
        base.len() as int
    };
    Seq::new(
        len as nat,
        |p: int|
            if off <= p < off + bytes.len() {
                bytes[p - off]
            } else if p < base.len() {
                base[p]
            } else {
                0u8
            },
    )
}

fn read_shard_exec(vol: &[u8], e: &VolumeEntry, chunk_size: usize) -> (r: Option<Vec<u8>>)
    ensures
        match r {
            Some(b) => read_shard(vol@, *e, chunk_size as nat) == Some(b@),
            None => read_shard(vol@, *e, chunk_size as nat) is None,
        },
{
    let vlen: u64 = vol.len() as u64;
    if e.offset > vlen || vlen - e.offset < e.len as u64 || e.len as u64 > chunk_size as u64 {
        return None;
    }
    let start: usize = e.offset as usize;
    let bytes = slice_subrange(vol, start, start + e.len as usize);
    match e.hash {
        None => {},
        Some(h) => {
            let d = blake3_hash(bytes);
            let mut same = true;
            let mut i: usize = 0;
            while i < 32
                invariant
                    i <= 32,
                    same == (forall|j: int| 0 <= j < i ==> h@[j] == d@[j]),
                decreases 32 - i,
            {
                if h[i] != d[i] {
                    same = false;
                }
                i += 1;
            }
            if !same {
                assert(h@ != d@);
                return None;
            }
            assert(h@ =~= d@);
        },
    }
    Some(pad_chunk(bytes, chunk_size))
}

/// The entries of all volumes, volume after volume, each with the number of
/// its volume. A volume whose index cannot be read adds none.
pub(crate) fn build_catalog(volumes: &Vec<Vec<u8>>, limits: &IndexLimits) -> (cat: Vec<
    (usize, VolumeEntry),
>)
    ensures
        cat@ == catalog(volume_views(volumes@), *limits, volumes@.len() as int),
        forall|i: int| 0 <= i < cat@.len() ==> (#[trigger] cat@[i]).0 < volumes@.len(),
{
    let ghost vols = volume_views(volumes@);
    let mut cat: Vec<(usize, VolumeEntry)> = Vec::new();
    let mut v: usize = 0;
    while v < volumes.len()
        invariant
            v <= volumes.len(),
            vols == volume_views(volumes@),
            cat@ == catalog(vols, *limits, v as int),
            forall|i: int| 0 <= i < cat@.len() ==> (#[trigger] cat@[i]).0 < volumes@.len(),
        decreases volumes.len() - v,
    {
        assert(vols[v as int] == volumes@[v as int]@);
        let ghost start = cat@;
        let entries = survey_volume(volumes[v].as_slice(), limits).entries;
        assert(entries@ == entries_of(vols[v as int], *limits));
        let mut i: usize = 0;
        assert(tagged(v as int, entries@).take(0) =~= Seq::<(usize, VolumeEntry)>::empty());
        assert(start + Seq::<(usize, VolumeEntry)>::empty() =~= start);
        while i < entries.len()
            invariant
                i <= entries.len(),
                v < volumes.len(),
                cat@ == start + tagged(v as int, entries@).take(i as int),
                forall|j: int| 0 <= j < cat@.len() ==> (#[trigger] cat@[j]).0 < volumes@.len(),
            decreases entries.len() - i,
        {
            cat.push((v, entries[i]));
            assert(cat@ =~= start + tagged(v as int, entries@).take(i + 1));
            i += 1;
        }
        assert(tagged(v as int, entries@).take(i as int) =~= tagged(v as int, entries@));
        v += 1;
    }
    cat
}

fn none_slots(count: usize) -> (slots: Vec<Option<Vec<u8>>>)
    ensures
        slots@.len() == count,
        forall|j: int| 0 <= j < count ==> (#[trigger] slots@[j]) is None,
{
    let mut slots: Vec<Option<Vec<u8>>> = Vec::new();
    let mut j: usize = 0;
    while j < count
        invariant
            j <= count,
            slots@.len() == j,
            forall|h: int| 0 <= h < j ==> (#[trigger] slots@[h]) is None,
        decreases count - j,
    {
        slots.push(None);
        j += 1;
    }
    slots
}

fn gather_exec(
    cat: &Vec<(usize, VolumeEntry)>,
    volumes: &Vec<Vec<u8>>,
    chunk_size: usize,
    s: u32,
    outer: bool,
    count: usize,
) -> (slots: Vec<Option<Vec<u8>>>)
    requires
        forall|i: int| 0 <= i < cat@.len() ==> (#[trigger] cat@[i]).0 < volumes@.len(),
    ensures
        opt_shard_views(slots@) == gather(
            cat@,
            volume_views(volumes@),
            chunk_size as nat,
            s,
            outer,
            count as int,
            cat@.len() as int,
        ),
        slots@.len() == count,
        forall|j: int|
            0 <= j < count ==> ((#[trigger] slots@[j]) matches Some(b) ==> b@.len() == chunk_size),
{
    let ghost vols = volume_views(volumes@);
    let mut slots = none_slots(count);
    assert(opt_shard_views(slots@) =~= gather(
        cat@,
        vols,
        chunk_size as nat,
        s,
        outer,
        count as int,
        0,
    ));
    let mut n: usize = 0;
    while n < cat.len()
        invariant
            n <= cat.len(),
            vols == volume_views(volumes@),
            forall|i: int| 0 <= i < cat@.len() ==> (#[trigger] cat@[i]).0 < volumes@.len(),
            slots@.len() == count,
            opt_shard_views(slots@) == gather(
                cat@,
                vols,
                chunk_size as nat,
                s,
                outer,
                count as int,
                n as int,
            ),
            forall|j: int|
                0 <= j < count ==> ((#[trigger] slots@[j]) matches Some(b) ==> b@.len()
                    == chunk_size),
        decreases cat.len() - n,
    {
        let v: usize = cat[n].0;
        let e: VolumeEntry = cat[n].1;
        let ghost prev = opt_shard_views(slots@);
        let is_wanted = if outer {
            e.stripe == OUTER_STRIPE && match e.outer_for_stripe {
                Some(x) => x == s,
                None => false,
            }
        } else {
            e.stripe == s && s != OUTER_STRIPE
        };
        assert(is_wanted == wanted(e, s, outer));
        assert(vols[v as int] == volumes@[v as int]@);
        if is_wanted && (e.parity_idx as usize) < count {
            let pi: usize = e.parity_idx as usize;
            assert(prev[pi as int] is None <==> slots@[pi as int] is None);
            if slots[pi].is_none() {
                match read_shard_exec(volumes[v].as_slice(), &e, chunk_size) {
                    None => {},
                    Some(b) => {
                        slots[pi] = Some(b);
                        assert(opt_shard_views(slots@) =~= prev.update(
                            pi as int,
                            read_shard(vols[v as int], e, chunk_size as nat),
                        ));
                    },
                }
            }
        }
        n += 1;
    }
    slots
}

/// The contents of a file, nothing for a file that is missing.
pub open spec fn content_view(file: Option<Vec<u8>>) -> Option<Seq<u8>> {
    match file {
        Some(d) => Some(d@),
        None => None,
    }
}

/// Every shard that is present has `len` bytes.
pub open spec fn sized(shards: Seq<Option<Vec<u8>>>, len: int) -> bool {
    forall|j: int|
        0 <= j < shards.len() ==> ((#[trigger] shards[j]) matches Some(b) ==> b@.len() == len)
}

fn concat_shards(a: &Vec<Option<Vec<u8>>>, b: &Vec<Option<Vec<u8>>>, Ghost(len): Ghost<int>) -> (out:
    Vec<Option<Vec<u8>>>)
    requires
        sized(a@, len),
        sized(b@, len),
    ensures
        opt_shard_views(out@) == opt_shard_views(a@) + opt_shard_views(b@),
        out@.len() == a@.len() + b@.len(),
        sized(out@, len),
{
    let mut out: Vec<Option<Vec<u8>>> = Vec::new();
    let ghost want = opt_shard_views(a@) + opt_shard_views(b@);
    let mut i: usize = 0;
    while i < a.len()
        invariant
            i <= a.len(),
            sized(a@, len),
            out@.len() == i,
            sized(out@, len),
            forall|j: int| 0 <= j < i ==> opt_shard_views(out@)[j] == opt_shard_views(a@)[j],
        decreases a.len() - i,
    {
        let ghost before = out@;
        let item: Option<Vec<u8>> = match &a[i] {
            Some(v) => {
                let c = v.clone();
                assert(c@ == v@);
                Some(c)
            },
            None => None,
        };
        out.push(item);
        proof {
            assert forall|j: int| 0 <= j < i + 1 implies opt_shard_views(out@)[j]
                == opt_shard_views(a@)[j] by {
                if j < i {
                    assert(out@[j] == before[j]);
                    assert(opt_shard_views(before)[j] == opt_shard_views(a@)[j]);
                }
            }
            assert forall|j: int| 0 <= j < out@.len() implies ((#[trigger] out@[j]) matches Some(
                x,
            ) ==> x@.len() == len) by {
                if j < i {
                    assert(out@[j] == before[j]);
                }
            }
        }
        i += 1;
    }
    let mut j: usize = 0;
    while j < b.len()
        invariant
            j <= b.len(),
            sized(b@, len),
            out@.len() == a@.len() + j,
            sized(out@, len),
            forall|x: int|
                0 <= x < a@.len() ==> opt_shard_views(out@)[x] == opt_shard_views(a@)[x],
            forall|x: int|
                0 <= x < j ==> opt_shard_views(out@)[a@.len() + x] == opt_shard_views(b@)[x],
        decreases b.len() - j,
    {
        let ghost before = out@;
        let item: Option<Vec<u8>> = match &b[j] {
            Some(v) => {
                let c = v.clone();
                assert(c@ == v@);
                Some(c)
            },
            None => None,
        };
        out.push(item);
        proof {
            assert forall|x: int| 0 <= x < a@.len() implies opt_shard_views(out@)[x]
                == opt_shard_views(a@)[x] by {
                assert(out@[x] == before[x]);
                assert(opt_shard_views(before)[x] == opt_shard_views(a@)[x]);
            }
            assert forall|x: int| 0 <= x < j + 1 implies opt_shard_views(out@)[a@.len() + x]
                == opt_shard_views(b@)[x] by {
                if x < j {
                    assert(out@[a@.len() + x] == before[a@.len() + x]);
                    assert(opt_shard_views(before)[a@.len() + x] == opt_shard_views(b@)[x]);
                }
            }
            assert forall|x: int| 0 <= x < out@.len() implies ((#[trigger] out@[x]) matches Some(
                y,
            ) ==> y@.len() == len) by {
                if x < a@.len() + j {
                    assert(out@[x] == before[x]);
                }
            }
        }
        j += 1;
    }
    assert(opt_shard_views(out@) =~= want);
    out
}

fn unwrap_shards(shards: &Vec<Option<Vec<u8>>>, upto: usize) -> (out: Vec<Vec<u8>>)
    requires
        upto <= shards@.len(),
        forall|i: int| 0 <= i < shards@.len() ==> (#[trigger] shards@[i]) is Some,
    ensures
        out@.len() == upto,
        forall|i: int| 0 <= i < upto ==> (#[trigger] out@[i])@ == shards@[i]->0@,
{
    let mut out: Vec<Vec<u8>> = Vec::new();
    let mut i: usize = 0;
    while i < upto
        invariant
            i <= upto,
            upto <= shards@.len(),
            forall|j: int| 0 <= j < shards@.len() ==> (#[trigger] shards@[j]) is Some,
            out@.len() == i,
            forall|j: int| 0 <= j < i ==> (#[trigger] out@[j])@ == shards@[j]->0@,
        decreases upto - i,
    {
        match &shards[i] {
            Some(v) => {
                let c = v.clone();
                assert(c@ == v@);
                out.push(c);
            },
            None => {
                out.push(Vec::new());
            },
        }
        i += 1;
    }
    out
}

fn wrap_shards(shards: &Vec<Vec<u8>>) -> (out: Vec<Option<Vec<u8>>>)
    ensures
        out@.len() == shards@.len(),
        forall|i: int|
            0 <= i < shards@.len() ==> ((#[trigger] out@[i]) matches Some(v) && v@ == shards@[i]@),
{
    let mut out: Vec<Option<Vec<u8>>> = Vec::new();
    let mut i: usize = 0;
    while i < shards.len()
        invariant
            i <= shards.len(),
            out@.len() == i,
            forall|j: int|
                0 <= j < i ==> ((#[trigger] out@[j]) matches Some(v) && v@ == shards@[j]@),
        decreases shards.len() - i,
    {
        let c = shards[i].clone();
        assert(c@ == shards@[i as int]@);
        out.push(Some(c));
        i += 1;
    }
    out
}

/// Shards whose present members all have one length that is not zero have
/// no bad size among them.
proof fn lemma_sized_not_bad(shards: Seq<Option<Vec<u8>>>, len: int)
    requires
        len > 0,
        sized(shards, len),
    ensures
        !present_sizes_bad(opt_shard_views(shards)),
{
    let views = opt_shard_views(shards);
    assert forall|i: int| 0 <= i < views.len() implies ((#[trigger] views[i]) matches Some(s)
        ==> s.len() == len as nat) by {
        if shards[i] is Some {
            assert(shards[i]->0@.len() == len);
        }
    }
    lemma_uniform_not_bad(views, len as nat);
}

/// Reconstructing from these shards gives back any data, with its parity, of
/// which the shards are what is left.
pub open spec fn restores(k: int, m: int, shards: Seq<Option<Seq<u8>>>) -> bool {
    forall|data: Seq<Seq<u8>>| #[trigger]
        survivors_of(k, m, data, shards) ==> rs_reconstructed(k, m, shards) == data + rs_parity(
            k,
            m,
            data,
        )
}

fn try_reconstruct(k: usize, m: usize, shards: &mut Vec<Option<Vec<u8>>>, Ghost(len): Ghost<int>) -> (ok:
    bool)
    requires
        valid_params(k as int, m as int),
        old(shards)@.len() == k + m,
        len > 0,
        sized(old(shards)@, len),
    ensures
        ok == (present_count(opt_shard_views(old(shards)@)) >= k),
        ok ==> {
            &&& final(shards)@.len() == k + m
            &&& forall|i: int| 0 <= i < k + m ==> (#[trigger] final(shards)@[i]) is Some
            &&& filled_views(final(shards)@) == rs_reconstructed(
                k as int,
                m as int,
                opt_shard_views(old(shards)@),
            )
            &&& sized(final(shards)@, len)
            &&& restores(k as int, m as int, opt_shard_views(old(shards)@))
        },
        !ok ==> final(shards)@ == old(shards)@,
{
    let rs = RsCodec { k, m };
    proof {
        lemma_sized_not_bad(shards@, len);
    }
    let ghost before = shards@;
    match rs.reconstruct(shards) {
        Ok(_) => {
            proof {
                lemma_present_exists(opt_shard_views(before));
                {
                    let j = choose|j: int|
                        0 <= j < before.len() && (#[trigger] opt_shard_views(before)[j]) is Some;
                    assert(before[j] is Some);
                    assert(shards@[j]->0@ == before[j]->0@);
                    assert forall|x: int| 0 <= x < shards@.len() implies ((
                    #[trigger] shards@[x]) matches Some(y) ==> y@.len() == len) by {
                        assert(shards@[x]->0@.len() == shards@[j]->0@.len());
                    }
                }
            }
            true
        },
        Err(_) => false,
    }
}

/// Where some shard is counted as present, one is.
proof fn lemma_present_exists(shards: Seq<Option<Seq<u8>>>)
    ensures
        present_count(shards) > 0 ==> exists|j: int|
            0 <= j < shards.len() && (#[trigger] shards[j]) is Some,
        present_count(shards) <= shards.len(),
    decreases shards.len(),
{
    if shards.len() > 0 {
        lemma_present_exists(shards.drop_last());
        if shards.last() is Some {
            assert(shards[shards.len() - 1] is Some);
        } else if present_count(shards) > 0 {
            let j = choose|j: int|
                0 <= j < shards.drop_last().len() && (#[trigger] shards.drop_last()[j]) is Some;
            assert(shards[j] is Some);
        }
    }
}

/// Each reconstruction that recovering a stripe makes gives back any data,
/// with its parity, of which its shards are what is left.
pub open spec fn recover_restores(
    k: int,
    m: int,
    o: int,
    data: Seq<Option<Seq<u8>>>,
    inner: Seq<Option<Seq<u8>>>,
    outer: Seq<Option<Seq<u8>>>,
) -> bool {
    if present_count(data + inner) >= k {
        restores(k, m, data + inner)
    } else if o > 0 && present_count(inner + outer) >= m {
        let second = data + all_present(rs_reconstructed(m, o, inner + outer).subrange(0, m));
        &&& restores(m, o, inner + outer)
        &&& present_count(second) >= k ==> restores(k, m, second)
    } else {
        true
    }
}

fn recover_exec(
    k: usize,
    m: usize,
    o: usize,
    data: &Vec<Option<Vec<u8>>>,
    inner: &Vec<Option<Vec<u8>>>,
    outer: &Vec<Option<Vec<u8>>>,
    Ghost(len): Ghost<int>,
) -> (r: (StripeOutcome, Option<Vec<Vec<u8>>>))
    requires
        valid_params(k as int, m as int),
        o > 0 ==> valid_params(m as int, o as int),
        data@.len() == k,
        inner@.len() == m,
        outer@.len() == o,
        len > 0,
        sized(data@, len),
        sized(inner@, len),
        sized(outer@, len),
    ensures
        r.0 == recover(
            k as int,
            m as int,
            o as int,
            opt_shard_views(data@),
            opt_shard_views(inner@),
            opt_shard_views(outer@),
        ).0,
        recover_restores(
            k as int,
            m as int,
            o as int,
            opt_shard_views(data@),
            opt_shard_views(inner@),
            opt_shard_views(outer@),
        ),
        match r.1 {
            Some(rec) => {
                &&& recover(
                    k as int,
                    m as int,
                    o as int,
                    opt_shard_views(data@),
                    opt_shard_views(inner@),
                    opt_shard_views(outer@),
                ).1 == Some(shard_views(rec@))
                &&& rec@.len() == k + m
                &&& forall|i: int| 0 <= i < k + m ==> (#[trigger] rec@[i])@.len() == len
            },
            None => recover(
                k as int,
                m as int,
                o as int,
                opt_shard_views(data@),
                opt_shard_views(inner@),
                opt_shard_views(outer@),
            ).1 is None,
        },
{
    let mut first = concat_shards(data, inner, Ghost(len));
    if try_reconstruct(k, m, &mut first, Ghost(len)) {
        let rec = unwrap_shards(&first, k + m);
        assert(shard_views(rec@) =~= filled_views(first@));
        assert forall|i: int| 0 <= i < k + m implies (#[trigger] rec@[i])@.len() == len by {
            assert(first@[i] is Some);
        }
        return (StripeOutcome::InnerRepaired, Some(rec));
    }
    if o > 0 {
        let mut parity = concat_shards(inner, outer, Ghost(len));
        if try_reconstruct(m, o, &mut parity, Ghost(len)) {
            let restored = unwrap_shards(&parity, m);
            let wrapped = wrap_shards(&restored);
            proof {
                let all = rs_reconstructed(
                    m as int,
                    o as int,
                    opt_shard_views(inner@) + opt_shard_views(outer@),
                );
                assert(filled_views(parity@) == all);
                assert forall|j: int| 0 <= j < m implies opt_shard_views(wrapped@)[j]
                    == all_present(all.subrange(0, m as int))[j] by {
                    assert(wrapped@[j]->0@ == restored@[j]@);
                    assert(restored@[j]@ == parity@[j]->0@);
                    assert(filled_views(parity@)[j] == parity@[j]->0@);
                }
                assert(opt_shard_views(wrapped@) =~= all_present(all.subrange(0, m as int)));
                assert forall|j: int| 0 <= j < wrapped@.len() implies ((
                #[trigger] wrapped@[j]) matches Some(x) ==> x@.len() == len) by {
                    assert(parity@[j] is Some);
                    assert(wrapped@[j]->0@ == restored@[j]@);
                }
            }
            let mut second = concat_shards(data, &wrapped, Ghost(len));
            if try_reconstruct(k, m, &mut second, Ghost(len)) {
                let rec = unwrap_shards(&second, k + m);
                assert(shard_views(rec@) =~= filled_views(second@));
                assert forall|i: int| 0 <= i < k + m implies (#[trigger] rec@[i])@.len()
                    == len by {
                    assert(second@[i] is Some);
                }
                return (StripeOutcome::OuterRecovered, Some(rec));
            }
        }
    }
    (StripeOutcome::Unrepairable, None)
}

fn apply_edit_exec(file: &mut Option<Vec<u8>>, size: usize, off: usize, bytes: &[u8])
    requires
        off + bytes@.len() <= size,
    ensures
        *final(file) matches Some(v) && v@ == apply_edit(
            content_view(*old(file)),
            size as int,
            off as int,
            bytes@,
        ),
{
    let ghost before: Option<Seq<u8>> = content_view(*file);
    let ghost want = apply_edit(before, size as int, off as int, bytes@);
    let mut cur: Option<Vec<u8>> = None;
    std::mem::swap(&mut cur, file);
    let blen: usize = bytes.len();
    let (base, missing): (Vec<u8>, bool) = match cur {
        Some(d) => (d, false),
        None => (Vec::new(), true),
    };
    let len: usize = if missing || base.len() > size {
        size
    } else if base.len() < off + blen {
        off + blen
    } else {
        base.len()
    };
    let mut out: Vec<u8> = Vec::new();
    let before_edit: usize = if base.len() < off {
        base.len()
    } else {
        off
    };
    extend_bytes(&mut out, slice_subrange(base.as_slice(), 0, before_edit));
    let ghost s1 = out@;
    out.resize(off, 0u8);
    let ghost s2 = out@;
    assert(s2.len() == off && forall|q: int|
        0 <= q < off ==> s2[q] == (if q < before_edit {
            base@[q]
        } else {
            0u8
        })) by {
        assert forall|q: int| 0 <= q < off implies s2[q] == (if q < before_edit {
            base@[q]
        } else {
            0u8
        }) by {
            if q < before_edit {
                assert(s2.subrange(0, before_edit as int)[q] == s1[q]);
            }
        }
    }
    extend_bytes(&mut out, bytes);
    let ghost s3 = out@;
    if base.len() > off + blen {
        let end: usize = if base.len() < len {
            base.len()
        } else {
            len
        };
        extend_bytes(&mut out, slice_subrange(base.as_slice(), off + blen, end));
    }
    let ghost s4 = out@;
    assert(s4.len() <= len);
    out.resize(len, 0u8);
    proof {
        assert(out@.len() == want.len());
        assert forall|q: int| 0 <= q < len implies out@[q] == want[q] by {
            if q < s4.len() {
                assert(out@.subrange(0, s4.len() as int)[q] == s4[q]);
                if q < off {
                    assert(s4[q] == s3[q]);
                    assert(s3[q] == s2[q]);
                } else if q < off + blen {
                    assert(s4[q] == s3[q]);
                    assert(s3[q] == bytes@[q - off]);
                } else {
                    assert(s4[q] == base@[q]);
                }
            }
        }
    }
    assert(out@ =~= want);
    *file = Some(out);
}

/// The parameters of the manifest allow repairing: a chunk size that the
/// format can record, a code with parity, an outer code that is valid where
/// there is outer parity, and no more stripes than the format can number.
pub open spec fn repair_config_ok(mf: Manifest) -> bool {
    let k = mf.stripe_k as int;
    let m = parity_count(k, mf.parity_pct as int);
    &&& 0 < mf.chunk_size <= u32::MAX
    &&& valid_params(k, m)
    &&& mf.outer_parity == 0 || valid_params(m, mf.outer_parity as int)
    &&& stripe_count(mf.total_chunks as int, k) <= u32::MAX
}

/// Why nothing can be repaired, if so: the first of contents that are not
/// one per file, an unsafe path, parameters that do not allow repairing, and
/// a manifest whose indices are not in order.
pub open spec fn repair_error(mf: Manifest, files: Seq<Option<Seq<u8>>>) -> Option<RepairError> {
    if files.len() != mf.files@.len() {
        Some(RepairError::FileCount)
    } else {
        match first_unsafe(mf, mf.files@.len() as int) {
            Some(e) => Some(RepairError::UnsafePath(e)),
            None => if !repair_config_ok(mf) {
                Some(RepairError::BadConfig)
            } else if !well_indexed(mf) {
                Some(RepairError::BadManifest)
            } else {
                None
            },
        }
    }
}

/// What becomes of stripe `s` where it has damage, and its shards where it
/// can be reconstructed, from the files as they were found and the parity in
/// the volumes.
pub open spec fn stripe_rec(
    mf: Manifest,
    files: Seq<Option<Seq<u8>>>,
    vols: Seq<Seq<u8>>,
    limits: IndexLimits,
    s: int,
) -> (StripeOutcome, Option<Seq<Seq<u8>>>) {
    let cat = catalog(vols, limits, vols.len() as int);
    let k = mf.stripe_k as int;
    let m = parity_count(k, mf.parity_pct as int);
    let o = mf.outer_parity as int;
    let cs = mf.chunk_size as nat;
    recover(
        k,
        m,
        o,
        data_slots(mf, files, s),
        gather(cat, vols, cs, s as u32, false, m, cat.len() as int),
        gather(cat, vols, cs, s as u32, true, o, cat.len() as int),
    )
}

/// The shards from which stripe `s` is first tried: its data shards and the
/// inner parity found for it.
pub open spec fn first_try(
    mf: Manifest,
    files: Seq<Option<Seq<u8>>>,
    vols: Seq<Seq<u8>>,
    limits: IndexLimits,
    s: int,
) -> Seq<Option<Seq<u8>>> {
    let cat = catalog(vols, limits, vols.len() as int);
    let m = parity_count(mf.stripe_k as int, mf.parity_pct as int);
    data_slots(mf, files, s) + gather(
        cat,
        vols,
        mf.chunk_size as nat,
        s as u32,
        false,
        m,
        cat.len() as int,
    )
}

/// The parity shards from which the inner parity of stripe `s` is restored:
/// the inner parity found for it, and the outer parity found for it.
pub open spec fn parity_try(
    mf: Manifest,
    files: Seq<Option<Seq<u8>>>,
    vols: Seq<Seq<u8>>,
    limits: IndexLimits,
    s: int,
) -> Seq<Option<Seq<u8>>> {
    let cat = catalog(vols, limits, vols.len() as int);
    let m = parity_count(mf.stripe_k as int, mf.parity_pct as int);
    gather(cat, vols, mf.chunk_size as nat, s as u32, false, m, cat.len() as int) + gather(
        cat,
        vols,
        mf.chunk_size as nat,
        s as u32,
        true,
        mf.outer_parity as int,
        cat.len() as int,
    )
}

/// The shards from which stripe `s` is tried again after its inner parity
/// was restored: its data shards and the restored inner parity.
pub open spec fn second_try(
    mf: Manifest,
    files: Seq<Option<Seq<u8>>>,
    vols: Seq<Seq<u8>>,
    limits: IndexLimits,
    s: int,
) -> Seq<Option<Seq<u8>>> {
    let m = parity_count(mf.stripe_k as int, mf.parity_pct as int);
    data_slots(mf, files, s) + all_present(
        rs_reconstructed(m, mf.outer_parity as int, parity_try(mf, files, vols, limits, s)).subrange(
            0,
            m,
        ),
    )
}

/// Each reconstruction that the repair of stripe `s` makes gives back any
/// data, with its parity, of which its shards are what is left: the first
/// try where it has K shards; else, where there is outer parity and M parity
/// shards are found, the restoring of the inner parity, and the second try
/// where that has K shards.
pub open spec fn restores_at(
    mf: Manifest,
    files: Seq<Option<Seq<u8>>>,
    vols: Seq<Seq<u8>>,
    limits: IndexLimits,
    s: int,
) -> bool {
    let k = mf.stripe_k as int;
    let m = parity_count(k, mf.parity_pct as int);
    let o = mf.outer_parity as int;
    if present_count(first_try(mf, files, vols, limits, s)) >= k {
        restores(k, m, first_try(mf, files, vols, limits, s))
    } else if o > 0 && present_count(parity_try(mf, files, vols, limits, s)) >= m {
        &&& restores(m, o, parity_try(mf, files, vols, limits, s))
        &&& present_count(second_try(mf, files, vols, limits, s)) >= k ==> restores(
            k,
            m,
            second_try(mf, files, vols, limits, s),
        )
    } else {
        true
    }
}

/// The chunk lies within the size that the manifest gives its file, and is no
/// longer than the chunk size.
pub open spec fn placeable(mf: Manifest, fi: int, ci: int) -> bool {
    let c = mf.files@[fi].chunks@[ci];
    &&& c.file_offset + c.len <= mf.files@[fi].size
    &&& mf.files@[fi].size <= usize::MAX
    &&& c.len <= mf.chunk_size
}

/// The bytes that replace the damaged chunk with global index `g`, where its
/// stripe can be reconstructed, the chunk lies within its file, and the
/// reconstructed bytes have the recorded digest.
pub open spec fn chunk_fix(
    mf: Manifest,
    files: Seq<Option<Seq<u8>>>,
    vols: Seq<Seq<u8>>,
    limits: IndexLimits,
    g: int,
) -> Option<Seq<u8>> {
    let k = mf.stripe_k as int;
    let r = ref_at(mf, g);
    let c = mf.files@[r.0].chunks@[r.1];
    match stripe_rec(mf, files, vols, limits, g / k).1 {
        None => None,
        Some(rec) => {
            let b = rec[g % k].subrange(0, c.len as int);
            if placeable(mf, r.0, r.1) && hex_of(chunk_digest(b, mf.chunk_size as nat))
                == c.hash_hex@ {
                Some(b)
            } else {
                None
            }
        },
    }
}

/// The files and the counts of a repair.
pub struct RepairModel {
    pub files: Seq<Option<Seq<u8>>>,
    pub repaired: int,
    pub failed: int,
}

/// The state of the repair when the chunks with global indices below `n`
/// were handled, in that order: an intact chunk is passed over; a damaged
/// chunk with replacement bytes gets them written into its file and counts
/// as repaired; any other damaged chunk counts as failed.
pub open spec fn repair_upto(
    mf: Manifest,
    files: Seq<Option<Seq<u8>>>,
    vols: Seq<Seq<u8>>,
    limits: IndexLimits,
    n: int,
) -> RepairModel
    decreases n,
{
    if n <= 0 {
        RepairModel { files, repaired: 0, failed: 0 }
    } else {
        let prev = repair_upto(mf, files, vols, limits, n - 1);
        let g = n - 1;
        if !damaged_at(mf, files, g) {
            prev
        } else {
            match chunk_fix(mf, files, vols, limits, g) {
                None => RepairModel {
                    files: prev.files,
                    repaired: prev.repaired,
                    failed: prev.failed + 1,
                },
                Some(b) => {
                    let r = ref_at(mf, g);
                    RepairModel {
                        files: prev.files.update(
                            r.0,
                            Some(
                                apply_edit(
                                    prev.files[r.0],
                                    mf.files@[r.0].size as int,
                                    mf.files@[r.0].chunks@[r.1].file_offset as int,
                                    b,
                                ),
                            ),
                        ),
                        repaired: prev.repaired + 1,
                        failed: prev.failed,
                    }
                },
            }
        }
    }
}

/// Slot `i` of stripe `s` holds a damaged chunk.
pub open spec fn slot_damaged(mf: Manifest, files: Seq<Option<Seq<u8>>>, s: int, i: int) -> bool {
    s * mf.stripe_k + i < mf.total_chunks && damaged_at(mf, files, s * mf.stripe_k + i)
}

/// Some chunk of stripe `s` is damaged.
pub open spec fn stripe_damaged(mf: Manifest, files: Seq<Option<Seq<u8>>>, s: int) -> bool {
    exists|i: int| 0 <= i < mf.stripe_k && #[trigger] slot_damaged(mf, files, s, i)
}

/// What becomes of stripe `s`.
pub open spec fn outcome_of(
    mf: Manifest,
    files: Seq<Option<Seq<u8>>>,
    vols: Seq<Seq<u8>>,
    limits: IndexLimits,
    s: int,
) -> StripeOutcome {
    if stripe_damaged(mf, files, s) {
        stripe_rec(mf, files, vols, limits, s).0
    } else {
        StripeOutcome::Untouched
    }
}

/// Handling the chunk with global index `g` writes into file `fi`.
pub open spec fn edits_file(
    mf: Manifest,
    files: Seq<Option<Seq<u8>>>,
    vols: Seq<Seq<u8>>,
    limits: IndexLimits,
    g: int,
    fi: int,
) -> bool {
    damaged_at(mf, files, g) && chunk_fix(mf, files, vols, limits, g) is Some && ref_at(mf, g).0
        == fi
}

/// Handling the chunks below `n` writes into file `fi`.
pub open spec fn file_edited(
    mf: Manifest,
    files: Seq<Option<Seq<u8>>>,
    vols: Seq<Seq<u8>>,
    limits: IndexLimits,
    fi: int,
    n: int,
) -> bool {
    exists|g: int| 0 <= g < n && #[trigger] edits_file(mf, files, vols, limits, g, fi)
}

/// What a repair hands back: the contents of the files after it, which of
/// them were written, what became of each stripe, and the counts.
#[derive(Debug)]
pub struct RepairOutcome {
    pub files: Vec<Option<Vec<u8>>>,
    pub changed: Vec<bool>,
    pub stripes: Vec<StripeOutcome>,
    pub report: RepairReport,
}

/// Which chunks are damaged, by global index.
pub(crate) fn scan_damage(mf: &Manifest, files: &Vec<Option<Vec<u8>>>, refs: &Vec<(usize, usize)>) -> (damaged:
    Vec<bool>)
    requires
        files@.len() == mf.files@.len(),
        refs_of(refs@, *mf),
    ensures
        damaged@.len() == mf.total_chunks,
        forall|g: int|
            0 <= g < damaged@.len() ==> (#[trigger] damaged@[g]) == damaged_at(
                *mf,
                content_views(files@),
                g,
            ),
{
    let ghost cv = content_views(files@);
    let mut damaged: Vec<bool> = Vec::new();
    let mut g: usize = 0;
    while g < refs.len()
        invariant
            g <= refs.len(),
            files@.len() == mf.files@.len(),
            refs_of(refs@, *mf),
            cv == content_views(files@),
            damaged@.len() == g,
            forall|h: int| 0 <= h < g ==> (#[trigger] damaged@[h]) == damaged_at(*mf, cv, h),
        decreases refs.len() - g,
    {
        let (fi, ci) = refs[g];
        assert(valid_ref(*mf, refs@[g as int].0 as int, refs@[g as int].1 as int));
        let file: Option<&[u8]> = match &files[fi] {
            Some(v) => Some(v.as_slice()),
            None => None,
        };
        let (intact, _digest) = check_chunk(file, &mf.files[fi].chunks[ci], mf.chunk_size);
        proof {
            assert(cv[fi as int] == match file {
                Some(d) => Some(d@),
                None => None,
            });
        }
        damaged.push(!intact);
        g += 1;
    }
    damaged
}

fn clone_files(files: &Vec<Option<Vec<u8>>>) -> (out: Vec<Option<Vec<u8>>>)
    ensures
        content_views(out@) == content_views(files@),
        out@.len() == files@.len(),
{
    let mut out: Vec<Option<Vec<u8>>> = Vec::new();
    let mut i: usize = 0;
    while i < files.len()
        invariant
            i <= files.len(),
            out@.len() == i,
            forall|j: int| 0 <= j < i ==> content_views(out@)[j] == content_views(files@)[j],
        decreases files.len() - i,
    {
        let ghost before = out@;
        let item: Option<Vec<u8>> = match &files[i] {
            Some(v) => {
                let c = v.clone();
                assert(c@ == v@);
                Some(c)
            },
            None => None,
        };
        out.push(item);
        proof {
            assert forall|j: int| 0 <= j < i + 1 implies content_views(out@)[j] == content_views(
                files@,
            )[j] by {
                if j < i {
                    assert(out@[j] == before[j]);
                    assert(content_views(before)[j] == content_views(files@)[j]);
                }
            }
        }
        i += 1;
    }
    assert(content_views(out@) =~= content_views(files@));
    out
}

fn data_slots_exec(
    mf: &Manifest,
    files: &Vec<Option<Vec<u8>>>,
    refs: &Vec<(usize, usize)>,
    damaged: &Vec<bool>,
    base: usize,
    Ghost(s): Ghost<int>,
) -> (data: Vec<Option<Vec<u8>>>)
    requires
        files@.len() == mf.files@.len(),
        refs_of(refs@, *mf),
        damaged@.len() == mf.total_chunks,
        forall|g: int|
            0 <= g < damaged@.len() ==> (#[trigger] damaged@[g]) == damaged_at(
                *mf,
                content_views(files@),
                g,
            ),
        base == s * mf.stripe_k,
        base <= mf.total_chunks,
        mf.chunk_size > 0,
    ensures
        data@.len() == mf.stripe_k,
        opt_shard_views(data@) == data_slots(*mf, content_views(files@), s),
        sized(data@, mf.chunk_size as int),
{
    let ghost cv = content_views(files@);
    let ghost want = data_slots(*mf, cv, s);
    let k: usize = mf.stripe_k;
    let total: usize = refs.len();
    let empty: Vec<u8> = Vec::new();
    let mut data: Vec<Option<Vec<u8>>> = Vec::new();
    let mut i: usize = 0;
    while i < k
        invariant
            i <= k,
            k == mf.stripe_k,
            total == mf.total_chunks,
            total == refs@.len(),
            empty@.len() == 0,
            files@.len() == mf.files@.len(),
            refs_of(refs@, *mf),
            damaged@.len() == mf.total_chunks,
            forall|g: int| 0 <= g < damaged@.len() ==> (#[trigger] damaged@[g]) == damaged_at(*mf, cv, g),
            base == s * mf.stripe_k,
            base <= total,
            mf.chunk_size > 0,
            cv == content_views(files@),
            want == data_slots(*mf, cv, s),
            data@.len() == i,
            sized(data@, mf.chunk_size as int),
            forall|j: int| 0 <= j < i ==> opt_shard_views(data@)[j] == want[j],
        decreases k - i,
    {
        let ghost before = data@;
        let slot: Option<Vec<u8>> = if i >= total - base {
            assert(empty@ =~= Seq::<u8>::empty());
            Some(pad_chunk(empty.as_slice(), mf.chunk_size))
        } else {
            let g: usize = base + i;
            if damaged[g] {
                None
            } else {
                let (fi, ci) = refs[g];
                assert(valid_ref(*mf, refs@[g as int].0 as int, refs@[g as int].1 as int));
                assert(ref_at(*mf, g as int) == (fi as int, ci as int));
                let c: &ChunkRef = &mf.files[fi].chunks[ci];
                assert(!damaged_at(*mf, cv, g as int));
                assert(chunk_intact(cv[fi as int], *c, mf.chunk_size as nat));
                assert(window(cv[fi as int], *c) is Some);
                match &files[fi] {
                    None => {
                        assert(cv[fi as int] is None);
                        None
                    },
                    Some(d) => {
                        assert(cv[fi as int] == Some(d@));
                        let dlen: usize = d.len();
                        assert(c.file_offset + c.len <= dlen);
                        let start: usize = c.file_offset as usize;
                        let bytes = slice_subrange(d.as_slice(), start, start + c.len as usize);
                        assert(bytes@ == window(cv[fi as int], *c)->0);
                        Some(pad_chunk(bytes, mf.chunk_size))
                    },
                }
            }
        };
        assert(content_view(slot) == data_slot(*mf, cv, s * mf.stripe_k + i));
        data.push(slot);
        proof {
            assert(opt_shard_views(data@)[i as int] == want[i as int]);
            assert forall|j: int| 0 <= j < i + 1 implies opt_shard_views(data@)[j] == want[j] by {
                if j < i {
                    assert(data@[j] == before[j]);
                    assert(opt_shard_views(before)[j] == want[j]);
                }
            }
            assert forall|j: int| 0 <= j < data@.len() implies ((#[trigger] data@[j]) matches Some(
                b,
            ) ==> b@.len() == mf.chunk_size as int) by {
                if j < i {
                    assert(data@[j] == before[j]);
                }
            }
        }
        i += 1;
    }
    assert(opt_shard_views(data@) =~= want);
    data
}

fn stripe_has_damage(damaged: &Vec<bool>, base: usize, k: usize) -> (r: bool)
    requires
        base <= damaged@.len(),
    ensures
        r == exists|i: int| 0 <= i < k && base + i < damaged@.len() && #[trigger] damaged@[base + i],
{
    let total: usize = damaged.len();
    let mut i: usize = 0;
    while i < k && i < total - base
        invariant
            i <= k,
            base <= total,
            total == damaged@.len(),
            forall|j: int| 0 <= j < i && base + j < total ==> !#[trigger] damaged@[base + j],
        decreases k - i,
    {
        if damaged[base + i] {
            return true;
        }
        i += 1;
    }
    false
}

fn recover_stripe(
    mf: &Manifest,
    files: &Vec<Option<Vec<u8>>>,
    volumes: &Vec<Vec<u8>>,
    cat: &Vec<(usize, VolumeEntry)>,
    refs: &Vec<(usize, usize)>,
    damaged: &Vec<bool>,
    m: usize,
    base: usize,
    s: usize,
    Ghost(limits): Ghost<IndexLimits>,
) -> (r: (StripeOutcome, Option<Vec<Vec<u8>>>))
    requires
        repair_config_ok(*mf),
        m == parity_count(mf.stripe_k as int, mf.parity_pct as int),
        files@.len() == mf.files@.len(),
        refs_of(refs@, *mf),
        damaged@.len() == mf.total_chunks,
        forall|g: int|
            0 <= g < damaged@.len() ==> (#[trigger] damaged@[g]) == damaged_at(
                *mf,
                content_views(files@),
                g,
            ),
        base == s * mf.stripe_k,
        base <= mf.total_chunks,
        s <= u32::MAX,
        cat@ == catalog(volume_views(volumes@), limits, volumes@.len() as int),
        forall|i: int| 0 <= i < cat@.len() ==> (#[trigger] cat@[i]).0 < volumes@.len(),
    ensures
        r.0 == stripe_rec(
            *mf,
            content_views(files@),
            volume_views(volumes@),
            limits,
            s as int,
        ).0,
        restores_at(*mf, content_views(files@), volume_views(volumes@), limits, s as int),
        match r.1 {
            Some(rec) => {
                &&& stripe_rec(
                    *mf,
                    content_views(files@),
                    volume_views(volumes@),
                    limits,
                    s as int,
                ).1 == Some(shard_views(rec@))
                &&& rec@.len() == mf.stripe_k + m
                &&& forall|i: int|
                    0 <= i < mf.stripe_k + m ==> (#[trigger] rec@[i])@.len() == mf.chunk_size
            },
            None => stripe_rec(
                *mf,
                content_views(files@),
                volume_views(volumes@),
                limits,
                s as int,
            ).1 is None,
        },
{
    let data = data_slots_exec(mf, files, refs, damaged, base, Ghost(s as int));
    let inner = gather_exec(cat, volumes, mf.chunk_size, s as u32, false, m);
    let outer = gather_exec(cat, volumes, mf.chunk_size, s as u32, true, mf.outer_parity);
    recover_exec(
        mf.stripe_k,
        m,
        mf.outer_parity,
        &data,
        &inner,
        &outer,
        Ghost(mf.chunk_size as int),
    )
}

/// Whether shard `i` of a reconstructed stripe can give chunk `ci` of file
/// `fi`: the shard and the chunk exist, the shard has the chunk's bytes, the
/// chunk lies within its file, and the first bytes of the shard, as many as
/// the chunk has, have the recorded digest.
pub open spec fn replaces(rec: Seq<Seq<u8>>, i: int, mf: Manifest, fi: int, ci: int) -> bool {
    let c = mf.files@[fi].chunks@[ci];
    &&& valid_ref(mf, fi, ci)
    &&& 0 <= i < rec.len()
    &&& c.len <= rec[i].len()
    &&& placeable(mf, fi, ci)
    &&& hex_of(chunk_digest(rec[i].subrange(0, c.len as int), mf.chunk_size as nat))
        == c.hash_hex@
}

/// The bytes that replace chunk `ci` of file `fi`, taken from shard `i` of a
/// reconstructed stripe: the first bytes of the shard, as many as the chunk
/// has, where the shard can give the chunk; nothing otherwise.
pub fn chunk_replacement(rec: &Vec<Vec<u8>>, i: usize, mf: &Manifest, fi: usize, ci: usize) -> (r:
    Option<Vec<u8>>)
    ensures
        match r {
            Some(v) => replaces(shard_views(rec@), i as int, *mf, fi as int, ci as int) && v@
                == rec@[i as int]@.subrange(
                0,
                mf.files@[fi as int].chunks@[ci as int].len as int,
            ),
            None => !replaces(shard_views(rec@), i as int, *mf, fi as int, ci as int),
        },
{
    if fi >= mf.files.len() || ci >= mf.files[fi].chunks.len() || i >= rec.len() {
        return None;
    }
    let c: &ChunkRef = &mf.files[fi].chunks[ci];
    let size: u64 = mf.files[fi].size;
    if c.len as u64 > mf.chunk_size as u64 || size > usize::MAX as u64 || c.file_offset > size
        || size - c.file_offset < c.len as u64 || c.len as u64 > rec[i].len() as u64 {
        return None;
    }
    assert(shard_views(rec@)[i as int] == rec@[i as int]@);
    let bytes = slice_subrange(rec[i].as_slice(), 0, c.len as usize);
    let digest = hash_chunk(bytes, mf.chunk_size);
    if digest_is(&digest, &c.hash_hex) {
        Some(slice_to_vec(bytes))
    } else {
        None
    }
}

/// The outcome is that of repairing the files from the volumes under the
/// limits: the files are those that handling every chunk in global order
/// leaves, with the counts of that; a file counts as changed exactly where a
/// chunk was written into it; every stripe has its outcome; and a set that
/// was encoded and is damaged within what the code can give back is
/// restored, with no chunk failed, so that it verifies again.
pub open spec fn repaired_as(
    out: RepairOutcome,
    mf: Manifest,
    files: Seq<Option<Seq<u8>>>,
    vols: Seq<Seq<u8>>,
    limits: IndexLimits,
) -> bool {
    let done = repair_upto(mf, files, vols, limits, mf.total_chunks as int);
    &&& content_views(out.files@) == done.files
    &&& out.report.repaired_chunks == done.repaired
    &&& out.report.failed_chunks == done.failed
    &&& out.changed@.len() == files.len()
    &&& forall|fi: int|
        0 <= fi < files.len() ==> (#[trigger] out.changed@[fi]) == file_edited(
            mf,
            files,
            vols,
            limits,
            fi,
            mf.total_chunks as int,
        )
    &&& forall|fi: int|
        0 <= fi < files.len() && !(#[trigger] out.changed@[fi]) ==> done.files[fi] == files[fi]
    &&& out.stripes@.len() == stripe_count(mf.total_chunks as int, mf.stripe_k as int)
    &&& forall|s: int|
        0 <= s < out.stripes@.len() ==> (#[trigger] out.stripes@[s]) == outcome_of(
            mf,
            files,
            vols,
            limits,
            s,
        )
    &&& forall|set: EncodedSet| #[trigger]
        encoded_set(mf, vols, limits, set) && damage_within(
            mf,
            files,
            vols,
            limits,
            set,
        ) ==> restored(mf, done.files, set) && done.failed == 0
            && verifies_as(mf, done.files)
}

/// Repairs the files from the parity in the volumes, under the limits given
/// for reading their indices. Entry `i` of `files` holds the present
/// contents of file `i` of the manifest, or nothing where that file is
/// missing. The chunks are handled in global order. A volume may be of the
/// current layout or of an earlier one; one that cannot be read counts as one
/// without entries. Of the paths only the text is judged here: what lies on
/// disk is judged by `repair_with_policy`, which takes what was found there.
pub fn repair_with_limits(
    mf: &Manifest,
    files: &Vec<Option<Vec<u8>>>,
    volumes: &Vec<Vec<u8>>,
    limits: &IndexLimits,
) -> (r: Result<RepairOutcome, RepairError>)
    ensures
        match r {
            Ok(out) => repair_error(*mf, content_views(files@)) is None && repaired_as(
                out,
                *mf,
                content_views(files@),
                volume_views(volumes@),
                *limits,
            ),
            Err(e) => repair_error(*mf, content_views(files@)) == Some(e),
        },
{
    if files.len() != mf.files.len() {
        return Err(RepairError::FileCount);
    }
    match check_paths(mf) {
        Some(e) => {
            return Err(RepairError::UnsafePath(e));
        },
        None => {},
    }
    let k: usize = mf.stripe_k;
    if mf.chunk_size == 0 || mf.chunk_size > 0xffff_ffff || k == 0 || k > 256 {
        assert(parity_count(k as int, mf.parity_pct as int) >= 0);
        return Err(RepairError::BadConfig);
    }
    let m: usize = match parity_shards(k, mf.parity_pct) {
        None => {
            return Err(RepairError::BadConfig);
        },
        Some(m) => m,
    };
    if m == 0 || m > 256 - k {
        return Err(RepairError::BadConfig);
    }
    if mf.outer_parity > 256 - m {
        return Err(RepairError::BadConfig);
    }
    if mf.total_chunks > usize::MAX as u64 {
        proof {
            assert(!well_indexed(*mf));
        }
        if stripes_too_many(mf.total_chunks, k) {
            return Err(RepairError::BadConfig);
        }
        return Err(RepairError::BadManifest);
    }
    let total: usize = mf.total_chunks as usize;
    let stripes: usize = stripes_for(total, k);
    if stripes > 0xffff_ffff {
        return Err(RepairError::BadConfig);
    }
    let ghost cv = content_views(files@);
    let ghost vols = volume_views(volumes@);
    let refs = match ref_table(mf) {
        None => {
            return Err(RepairError::BadManifest);
        },
        Some(x) => x,
    };
    let damaged = scan_damage(mf, files, &refs);
    let cat = build_catalog(volumes, limits);
    let mut out_files = clone_files(files);
    let mut changed: Vec<bool> = Vec::new();
    let mut fi: usize = 0;
    while fi < files.len()
        invariant
            fi <= files.len(),
            changed@.len() == fi,
            forall|j: int| 0 <= j < fi ==> !(#[trigger] changed@[j]),
        decreases files.len() - fi,
    {
        changed.push(false);
        fi += 1;
    }
    assert forall|j: int| 0 <= j < files@.len() implies (#[trigger] changed@[j]) == file_edited(
        *mf,
        cv,
        vols,
        *limits,
        j,
        0,
    ) by {}
    let mut outcomes: Vec<StripeOutcome> = Vec::new();
    let mut repaired: u64 = 0;
    let mut failed: u64 = 0;
    let mut s: usize = 0;
    proof {
        assert(0 * (k as int) == 0) by (nonlinear_arith);
        if stripes == 0 {
            let x = total + k - 1;
            vstd::arithmetic::div_mod::lemma_fundamental_div_mod(x, k as int);
            vstd::arithmetic::div_mod::lemma_mod_bound(x, k as int);
            assert((k as int) * (x / (k as int)) == 0) by (nonlinear_arith)
                requires
                    x / (k as int) == 0,
            ;
        }
    }
    while s < stripes
        invariant
            s <= stripes,
            stripes <= 0xffff_ffff,
            stripes == stripe_count(total as int, k as int),
            total == mf.total_chunks,
            k == mf.stripe_k,
            0 < k,
            m == parity_count(k as int, mf.parity_pct as int),
            repair_config_ok(*mf),
            files@.len() == mf.files@.len(),
            cv == content_views(files@),
            vols == volume_views(volumes@),
            refs_of(refs@, *mf),
            damaged@.len() == total,
            forall|g: int| 0 <= g < damaged@.len() ==> (#[trigger] damaged@[g]) == damaged_at(*mf, cv, g),
            cat@ == catalog(vols, *limits, volumes@.len() as int),
            forall|i: int| 0 <= i < cat@.len() ==> (#[trigger] cat@[i]).0 < volumes@.len(),
            out_files@.len() == files@.len(),
            changed@.len() == files@.len(),
            s < stripes ==> s * k <= total,
            s == stripes ==> handled(s as int, k as int, total as int) == total,
            content_views(out_files@) == repair_upto(
                *mf,
                cv,
                vols,
                *limits,
                handled(s as int, k as int, total as int),
            ).files,
            repaired == repair_upto(
                *mf,
                cv,
                vols,
                *limits,
                handled(s as int, k as int, total as int),
            ).repaired,
            failed == repair_upto(
                *mf,
                cv,
                vols,
                *limits,
                handled(s as int, k as int, total as int),
            ).failed,
            repaired + failed <= handled(s as int, k as int, total as int),
            forall|j: int|
                0 <= j < files@.len() && !(#[trigger] changed@[j]) ==> content_views(
                    out_files@,
                )[j] == cv[j],
            forall|j: int|
                0 <= j < files@.len() ==> (#[trigger] changed@[j]) == file_edited(
                    *mf,
                    cv,
                    vols,
                    *limits,
                    j,
                    handled(s as int, k as int, total as int),
                ),
            outcomes@.len() == s,
            forall|x: int|
                0 <= x < s ==> (#[trigger] outcomes@[x]) == outcome_of(*mf, cv, vols, *limits, x),
            forall|x: int|
                0 <= x < s && stripe_damaged(*mf, cv, x) ==> #[trigger] restores_at(
                    *mf,
                    cv,
                    vols,
                    *limits,
                    x,
                ),
        decreases stripes - s,
    {
        proof {
            lemma_stripe_start(total as int, k as int, s as int);
        }
        let base: usize = s * k;
        let any = stripe_has_damage(&damaged, base, k);
        proof {
            lemma_any_damage(*mf, cv, damaged@, s as int, any);
        }
        let (outcome, rec): (StripeOutcome, Option<Vec<Vec<u8>>>) = if any {
            recover_stripe(mf, files, volumes, &cat, &refs, &damaged, m, base, s, Ghost(*limits))
        } else {
            (StripeOutcome::Untouched, None)
        };
        let mut i: usize = 0;
        while i < k && i < total - base
            invariant
                i <= k,
                base + i <= total,
                base == s * k,
                s < stripes,
                total == mf.total_chunks,
                k == mf.stripe_k,
                0 < k,
                m == parity_count(k as int, mf.parity_pct as int),
                files@.len() == mf.files@.len(),
                cv == content_views(files@),
                vols == volume_views(volumes@),
                refs_of(refs@, *mf),
                damaged@.len() == total,
                forall|g: int|
                    0 <= g < damaged@.len() ==> (#[trigger] damaged@[g]) == damaged_at(*mf, cv, g),
                any == stripe_damaged(*mf, cv, s as int),
                any ==> match rec {
                    Some(r) => {
                        &&& stripe_rec(*mf, cv, vols, *limits, s as int).1 == Some(
                            shard_views(r@),
                        )
                        &&& r@.len() == k + m
                        &&& forall|x: int| 0 <= x < k + m ==> (#[trigger] r@[x])@.len() == mf.chunk_size
                    },
                    None => stripe_rec(*mf, cv, vols, *limits, s as int).1 is None,
                },
                out_files@.len() == files@.len(),
                changed@.len() == files@.len(),
                content_views(out_files@) == repair_upto(*mf, cv, vols, *limits, base + i).files,
                repaired == repair_upto(*mf, cv, vols, *limits, base + i).repaired,
                failed == repair_upto(*mf, cv, vols, *limits, base + i).failed,
                repaired + failed <= base + i,
                forall|j: int|
                    0 <= j < files@.len() && !(#[trigger] changed@[j]) ==> content_views(
                        out_files@,
                    )[j] == cv[j],
                forall|j: int|
                    0 <= j < files@.len() ==> (#[trigger] changed@[j]) == file_edited(
                        *mf,
                        cv,
                        vols,
                        *limits,
                        j,
                        base + i,
                    ),
            decreases k - i,
        {
            let g: usize = base + i;
            let ghost prev = repair_upto(*mf, cv, vols, *limits, g as int);
            let ghost changed_before = changed@;
            if damaged[g] {
                let (fi, ci) = refs[g];
                proof {
                    assert(valid_ref(*mf, refs@[g as int].0 as int, refs@[g as int].1 as int));
                    assert(ref_at(*mf, g as int) == (fi as int, ci as int));
                    assert(slot_damaged(*mf, cv, s as int, i as int));
                    assert(k * s == s * k) by (nonlinear_arith);
                    vstd::arithmetic::div_mod::lemma_fundamental_div_mod_converse(
                        g as int,
                        k as int,
                        s as int,
                        i as int,
                    );
                }
                let fix: Option<Vec<u8>> = match &rec {
                    None => None,
                    Some(r) => chunk_replacement(r, i, mf, fi, ci),
                };
                proof {
                    let want = chunk_fix(*mf, cv, vols, *limits, g as int);
                    if rec is Some {
                        assert(shard_views(rec->0@)[i as int]
                            == rec->0@[i as int]@);
                    }
                    assert(content_view(fix) == want);
                }
                match fix {
                    None => {
                        failed = failed + 1;
                        proof {
                            lemma_edited_step(*mf, cv, vols, *limits, g as int);
                        }
                    },
                    Some(bytes) => {
                        let ghost before = out_files@;
                        let c: &ChunkRef = &mf.files[fi].chunks[ci];
                        apply_edit_exec(
                            &mut out_files[fi],
                            mf.files[fi].size as usize,
                            c.file_offset as usize,
                            bytes.as_slice(),
                        );
                        changed[fi] = true;
                        repaired = repaired + 1;
                        proof {
                            let next = repair_upto(*mf, cv, vols, *limits, g + 1);
                            assert(content_views(out_files@) =~= next.files) by {
                                assert forall|j: int| 0 <= j < files@.len() implies content_views(
                                    out_files@,
                                )[j] == next.files[j] by {
                                    if j != fi {
                                        assert(out_files@[j] == before[j]);
                                        assert(content_views(before)[j] == prev.files[j]);
                                    } else {
                                        assert(content_view(before[fi as int]) == prev.files[fi as int]);
                                    }
                                }
                            }
                            assert forall|j: int|
                                0 <= j < files@.len() && !(#[trigger] changed@[j]) implies content_views(
                                out_files@,
                            )[j] == cv[j] by {
                                assert(out_files@[j] == before[j]);
                                assert(content_views(before)[j] == cv[j]);
                            }
                            lemma_edited_step(*mf, cv, vols, *limits, g as int);
                            assert(edits_file(*mf, cv, vols, *limits, g as int, fi as int));
                        }
                    },
                }
            } else {
                proof {
                    lemma_edited_step(*mf, cv, vols, *limits, g as int);
                }
            }
            i += 1;
        }
        outcomes.push(outcome);
        proof {
            lemma_handled_step(s as int, k as int, total as int, i as int);
            assert(outcomes@[s as int] == outcome_of(*mf, cv, vols, *limits, s as int));
        }
        s += 1;
    }
    let n_volumes: usize = volumes.len();
    proof {
        assert forall|set: EncodedSet| #[trigger]
            encoded_set(*mf, vols, *limits, set)
                && damage_within(*mf, cv, vols, *limits, set) implies restored(
            *mf,
            repair_upto(*mf, cv, vols, *limits, mf.total_chunks as int).files,
            set,
        ) && repair_upto(*mf, cv, vols, *limits, mf.total_chunks as int).failed == 0
            && verifies_as(
            *mf,
            repair_upto(*mf, cv, vols, *limits, mf.total_chunks as int).files,
        ) by {
            lemma_repair_restores(*mf, cv, vols, *limits, set);
        }
    }
    Ok(
        RepairOutcome {
            files: out_files,
            changed,
            stripes: outcomes,
            report: RepairReport { repaired_chunks: repaired, failed_chunks: failed },
        },
    )
}

/// Handling one more chunk adds to the files written the file of that chunk,
/// where the chunk is written, and no other.
proof fn lemma_edited_step(
    mf: Manifest,
    files: Seq<Option<Seq<u8>>>,
    vols: Seq<Seq<u8>>,
    limits: IndexLimits,
    g: int,
)
    requires
        0 <= g,
    ensures
        forall|fi: int|
            #![trigger file_edited(mf, files, vols, limits, fi, g + 1)]
            file_edited(mf, files, vols, limits, fi, g + 1) == (file_edited(
                mf,
                files,
                vols,
                limits,
                fi,
                g,
            ) || edits_file(mf, files, vols, limits, g, fi)),
{
    assert forall|fi: int|
        #![trigger file_edited(mf, files, vols, limits, fi, g + 1)]
        file_edited(mf, files, vols, limits, fi, g + 1) == (file_edited(
            mf,
            files,
            vols,
            limits,
            fi,
            g,
        ) || edits_file(mf, files, vols, limits, g, fi)) by {
        if file_edited(mf, files, vols, limits, fi, g + 1) {
            let x = choose|x: int|
                0 <= x < g + 1 && #[trigger] edits_file(mf, files, vols, limits, x, fi);
            if x < g {
                assert(file_edited(mf, files, vols, limits, fi, g));
            }
        }
        if file_edited(mf, files, vols, limits, fi, g) {
            let x = choose|x: int|
                0 <= x < g && #[trigger] edits_file(mf, files, vols, limits, x, fi);
            assert(0 <= x < g + 1);
        }
        if edits_file(mf, files, vols, limits, g, fi) {
            assert(file_edited(mf, files, vols, limits, fi, g + 1));
        }
    }
}

/// Number of chunks in the first `s` stripes of `total` chunks.
pub open spec fn handled(s: int, k: int, total: int) -> int {
    if s * k < total {
        s * k
    } else {
        total
    }
}

/// Stripe `s` ends where stripe `s + 1` starts, and the last stripe ends at
/// the last chunk.
pub(crate) proof fn lemma_handled_step(s: int, k: int, total: int, i: int)
    requires
        0 <= s < stripe_count(total, k),
        0 < k,
        0 <= total,
        0 <= i <= k,
        s * k + i <= total,
        i < k ==> s * k + i == total,
    ensures
        handled(s + 1, k, total) == s * k + i,
        handled(s, k, total) == s * k,
        s + 1 < stripe_count(total, k) ==> (s + 1) * k <= total,
        s + 1 == stripe_count(total, k) ==> handled(s + 1, k, total) == total,
{
    lemma_stripe_start(total, k, s);
    assert((s + 1) * k == s * k + k) by (nonlinear_arith);
    if s + 1 < stripe_count(total, k) {
        lemma_stripe_start(total, k, s + 1);
    } else {
        // the last stripe ends at or after the last chunk
        let x = total + k - 1;
        vstd::arithmetic::div_mod::lemma_fundamental_div_mod(x, k);
        vstd::arithmetic::div_mod::lemma_mod_bound(x, k);
        assert(k * (x / k) == (s + 1) * k) by (nonlinear_arith)
            requires
                x / k == s + 1,
        ;
    }
}

proof fn lemma_any_damage(
    mf: Manifest,
    files: Seq<Option<Seq<u8>>>,
    damaged: Seq<bool>,
    s: int,
    any: bool,
)
    requires
        damaged.len() == mf.total_chunks,
        forall|g: int| 0 <= g < damaged.len() ==> (#[trigger] damaged[g]) == damaged_at(mf, files, g),
        0 <= s,
        0 <= s * mf.stripe_k <= damaged.len(),
        any == exists|i: int|
            0 <= i < mf.stripe_k && s * mf.stripe_k + i < damaged.len() && #[trigger] damaged[s
                * mf.stripe_k + i],
    ensures
        any == stripe_damaged(mf, files, s),
{
    let base = s * mf.stripe_k;
    if any {
        let i = choose|i: int|
            0 <= i < mf.stripe_k && base + i < damaged.len() && #[trigger] damaged[base + i];
        assert(slot_damaged(mf, files, s, i));
    }
    if stripe_damaged(mf, files, s) {
        let i = choose|i: int| 0 <= i < mf.stripe_k && #[trigger] slot_damaged(mf, files, s, i);
        assert(damaged[base + i]);
    }
}

fn stripes_too_many(total: u64, k: usize) -> (r: bool)
    requires
        0 < k <= 256,
    ensures
        r == (stripe_count(total as int, k as int) > u32::MAX),
{
    let full: u64 = total / (k as u64);
    let rest: u64 = total % (k as u64);
    proof {
        let t = total as int;
        let kk = k as int;
        assert(t == kk * (t / kk) + t % kk) by (nonlinear_arith)
            requires
                kk > 0,
        ;
        if t % kk == 0 {
            assert((t + kk - 1) / kk == t / kk) by (nonlinear_arith)
                requires
                    kk > 0,
                    t >= 0,
                    t % kk == 0,
            ;
        } else {
            assert((t + kk - 1) / kk == t / kk + 1) by (nonlinear_arith)
                requires
                    kk > 0,
                    t >= 0,
                    t % kk != 0,
            ;
        }
    }
    if rest == 0 {
        full > 0xffff_ffff
    } else {
        full >= 0xffff_ffff
    }
}

/// The table of chunk references by global index, for a well-indexed
/// manifest; nothing for any other.
pub(crate) fn ref_table(mf: &Manifest) -> (r: Option<Vec<(usize, usize)>>)
    requires
        mf.total_chunks <= usize::MAX,
    ensures
        match r {
            Some(refs) => well_indexed(*mf) && refs_of(refs@, *mf),
            None => !well_indexed(*mf),
        },
{
    match count_refs(mf) {
        None => None,
        Some(n) => {
            if n != mf.total_chunks {
                None
            } else {
                index_refs(mf)
            }
        },
    }
}

/// The limits under which indices are read where none are given: 32 MiB of
/// decompressed index and five million entries.
pub open spec fn default_limits() -> IndexLimits {
    IndexLimits { max_uncompressed_bytes: 33554432usize, max_entries: 5000000usize }
}

/// Why repairing under a policy fails, if it does: what was found on disk is
/// not one set of facts per file; or the path of some file is refused, for
/// its text or for what was found on disk for it; or the repair itself cannot
/// be made.
pub open spec fn repair_policy_error(
    mf: Manifest,
    files: Seq<Option<Seq<u8>>>,
    policy: PathPolicy,
    found: Seq<LinkFacts>,
) -> Option<RepairError> {
    if found.len() != mf.files@.len() {
        Some(RepairError::FileCount)
    } else {
        match first_refused(mf, policy, found, found.len() as int) {
            Some(e) => Some(RepairError::UnsafePath(e)),
            None => repair_error(mf, files),
        }
    }
}

/// Repairs the files under a policy on symbolic links. Entry `i` of `found`
/// tells what the caller found on disk for the path of file `i`.
pub fn repair_with_policy(
    mf: &Manifest,
    files: &Vec<Option<Vec<u8>>>,
    volumes: &Vec<Vec<u8>>,
    policy: PathPolicy,
    found: &Vec<LinkFacts>,
) -> (r: Result<RepairOutcome, RepairError>)
    ensures
        match r {
            Ok(out) => repair_policy_error(*mf, content_views(files@), policy, found@) is None
                && repaired_as(
                out,
                *mf,
                content_views(files@),
                volume_views(volumes@),
                default_limits(),
            ),
            Err(e) => repair_policy_error(*mf, content_views(files@), policy, found@) == Some(e),
        },
{
    if found.len() != mf.files.len() {
        return Err(RepairError::FileCount);
    }
    match check_policy(mf, policy, found) {
        Some(e) => {
            return Err(RepairError::UnsafePath(e));
        },
        None => {},
    }
    let limits = IndexLimits { max_uncompressed_bytes: 32 * 1024 * 1024, max_entries: 5_000_000 };
    repair_with_limits(mf, files, volumes, &limits)
}

/// Repairs the files from the parity in the volumes under the default
/// policy, which refuses a symbolic link on any path, reading the indices
/// under the default limits. Entry `i` of `found` tells what the caller found
/// on disk for the path of file `i`.
pub fn repair(
    mf: &Manifest,
    files: &Vec<Option<Vec<u8>>>,
    volumes: &Vec<Vec<u8>>,
    found: &Vec<LinkFacts>,
) -> (r: Result<RepairOutcome, RepairError>)
    ensures
        match r {
            Ok(out) => repair_policy_error(
                *mf,
                content_views(files@),
                default_policy(),
                found@,
            ) is None && repaired_as(
                out,
                *mf,
                content_views(files@),
                volume_views(volumes@),
                default_limits(),
            ),
            Err(e) => repair_policy_error(*mf, content_views(files@), default_policy(), found@)
                == Some(e),
        },
{
    repair_with_policy(mf, files, volumes, PathPolicy { follow_symlinks: false }, found)
}

} // verus!
