//! The parity audit: how each volume was found, and how many inner and outer
//! parity shards the volumes hold for each stripe.

use crate::index::{IndexError, IndexLimits};
use crate::legacy::{
    kind_of, shard_kind, shard_verified, survey_of, survey_volume, tally_of, verify_shard,
    ShardKind, VolumeStatus,
};
use crate::verify::content_views;
use crate::volume::VolumeEntry;
use std::collections::HashMap;
use vstd::prelude::*;

verus! {

broadcast use vstd::std_specs::hash::group_hash_axioms;

/// What the parity audit found.
#[derive(Debug)]
pub struct ParityAuditReport {
    /// Number of volumes, those that could not be read included.
    pub volumes: usize,
    /// How each volume was found, in the order of the volumes.
    pub statuses: Vec<VolumeStatus>,
    /// The number of entries that each volume gave, in the same order.
    pub entry_counts: Vec<usize>,
    /// For each stripe with an inner parity shard, the number of them.
    pub stripe_parity_counts: HashMap<u32, usize>,
    /// For each stripe, the number of its inner parity shards that still have
    /// the digest recorded for them.
    pub stripe_parity_verified: HashMap<u32, usize>,
    /// For each stripe with an outer parity shard, the number of them.
    pub stripe_outer_counts: HashMap<u32, usize>,
    /// For each stripe, the number of its outer parity shards that still have
    /// the digest recorded for them.
    pub stripe_outer_verified: HashMap<u32, usize>,
}

/// The entries of a volume of the current layout or of an earlier one, none
/// where its header or its index cannot be read.
pub open spec fn entries_of(vol: Seq<u8>, limits: IndexLimits) -> Seq<VolumeEntry> {
    survey_of(vol, limits).4
}

/// Views of a list of volumes.
pub open spec fn volume_views(vols: Seq<Vec<u8>>) -> Seq<Seq<u8>> {
    Seq::new(vols.len(), |i: int| vols[i]@)
}

/// The entries that the audit takes from a volume: those of its index, none
/// for a volume that could not be opened.
pub open spec fn found_in(vol: Option<Seq<u8>>, limits: IndexLimits) -> Seq<VolumeEntry> {
    match vol {
        Some(f) => entries_of(f, limits),
        None => Seq::empty(),
    }
}

/// How the audit finds a volume.
pub open spec fn status_of(vol: Option<Seq<u8>>, limits: IndexLimits) -> VolumeStatus {
    match vol {
        Some(f) => survey_of(f, limits).0,
        None => VolumeStatus::OpenError,
    }
}

/// The kind of the inner parity shards of stripe `s`, or of its outer ones.
pub open spec fn kind_for(outer: bool, s: u32) -> ShardKind {
    if outer {
        ShardKind::Outer(s)
    } else {
        ShardKind::Inner(s)
    }
}

/// Number of the given entries of a volume that are parity shards of stripe
/// `s`, inner or outer; with `verified`, only those whose shard still has the
/// recorded digest.
pub open spec fn counted(
    vol: Seq<u8>,
    entries: Seq<VolumeEntry>,
    outer: bool,
    verified: bool,
    s: u32,
) -> nat {
    let t = tally_of(vol, entries, kind_for(outer, s));
    if verified {
        t.1
    } else {
        t.0
    }
}

/// The same number over the first `n` volumes.
pub open spec fn counted_in_volumes(
    vols: Seq<Option<Seq<u8>>>,
    limits: IndexLimits,
    n: int,
    outer: bool,
    verified: bool,
    s: u32,
) -> nat
    decreases n,
{
    if n <= 0 {
        0
    } else {
        counted_in_volumes(vols, limits, n - 1, outer, verified, s) + match vols[n - 1] {
            Some(f) => counted(f, entries_of(f, limits), outer, verified, s),
            None => 0nat,
        }
    }
}

/// Number of entries in the first `n` volumes.
pub open spec fn entries_in_volumes(vols: Seq<Option<Seq<u8>>>, limits: IndexLimits, n: int) -> nat
    decreases n,
{
    if n <= 0 {
        0
    } else {
        entries_in_volumes(vols, limits, n - 1) + found_in(vols[n - 1], limits).len()
    }
}

/// The map holds, for every stripe, the number that `count` gives it, and no
/// entry for a stripe whose number is zero.
pub open spec fn tallies(map: Map<u32, usize>, count: spec_fn(u32) -> nat) -> bool {
    forall|s: u32|
        (#[trigger] map.contains_key(s) <==> count(s) > 0) && (map.contains_key(s) ==> map[s]
            == count(s))
}

/// The number for stripe `s` when the first `v` volumes and the first `i`
/// entries of the next were counted.
pub open spec fn counted_sofar(
    vols: Seq<Option<Seq<u8>>>,
    limits: IndexLimits,
    v: int,
    i: int,
    outer: bool,
    verified: bool,
    s: u32,
) -> nat {
    counted_in_volumes(vols, limits, v, outer, verified, s) + match vols[v] {
        Some(f) => counted(f, entries_of(f, limits).take(i), outer, verified, s),
        None => 0nat,
    }
}

proof fn lemma_counted_le_len(
    vol: Seq<u8>,
    entries: Seq<VolumeEntry>,
    outer: bool,
    verified: bool,
    s: u32,
)
    ensures
        counted(vol, entries, outer, verified, s) <= entries.len(),
    decreases entries.len(),
{
    if entries.len() > 0 {
        lemma_counted_le_len(vol, entries.drop_last(), outer, verified, s);
    }
}

proof fn lemma_counted_le_total(
    vols: Seq<Option<Seq<u8>>>,
    limits: IndexLimits,
    n: int,
    outer: bool,
    verified: bool,
    s: u32,
)
    ensures
        counted_in_volumes(vols, limits, n, outer, verified, s) <= entries_in_volumes(
            vols,
            limits,
            n,
        ),
    decreases n,
{
    if n > 0 {
        lemma_counted_le_total(vols, limits, n - 1, outer, verified, s);
        if vols[n - 1] is Some {
            lemma_counted_le_len(
                vols[n - 1]->0,
                entries_of(vols[n - 1]->0, limits),
                outer,
                verified,
                s,
            );
        }
    }
}

proof fn lemma_entries_grow(vols: Seq<Option<Seq<u8>>>, limits: IndexLimits, n: int, end: int)
    requires
        0 <= n <= end,
    ensures
        entries_in_volumes(vols, limits, n) <= entries_in_volumes(vols, limits, end),
    decreases end - n,
{
    if n < end {
        lemma_entries_grow(vols, limits, n, end - 1);
    }
}

/// What one more entry adds to the number for stripe `t`: one where the entry
/// is of that kind and stripe and, with `verified`, its shard still has the
/// recorded digest.
proof fn lemma_counted_step(
    vol: Seq<u8>,
    entries: Seq<VolumeEntry>,
    i: int,
    outer: bool,
    verified: bool,
    t: u32,
)
    requires
        0 <= i < entries.len(),
    ensures
        counted(vol, entries.take(i + 1), outer, verified, t) == counted(
            vol,
            entries.take(i),
            outer,
            verified,
            t,
        ) + if kind_of(entries[i]) == kind_for(outer, t) && (!verified
            || shard_verified(vol, entries[i])) {
            1nat
        } else {
            0nat
        },
{
    assert(entries.take(i + 1).drop_last() =~= entries.take(i));
    assert(entries.take(i + 1).last() == entries[i]);
}

fn bump(
    map: &mut HashMap<u32, usize>,
    s: u32,
    Ghost(before): Ghost<spec_fn(u32) -> nat>,
    Ghost(after): Ghost<spec_fn(u32) -> nat>,
)
    requires
        tallies(old(map)@, before),
        after(s) == before(s) + 1,
        after(s) <= usize::MAX,
        forall|t: u32| t != s ==> #[trigger] after(t) == before(t),
    ensures
        tallies(final(map)@, after),
{
    let ghost start = map@;
    let so_far: usize = match map.get(&s) {
        Some(c) => *c,
        None => 0,
    };
    map.insert(s, so_far + 1);
    assert forall|t: u32|
        (#[trigger] map@.contains_key(t) <==> after(t) > 0) && (map@.contains_key(t) ==> map@[t]
            == after(t)) by {
        if t != s {
            assert(start.contains_key(t) == map@.contains_key(t));
        }
    }
}

/// Why the audit fails, if it does: the volumes hold more entries than the
/// machine can count.
pub open spec fn audit_error(vols: Seq<Option<Seq<u8>>>, limits: IndexLimits) -> Option<
    IndexError,
> {
    if entries_in_volumes(vols, limits, vols.len() as int) > usize::MAX {
        Some(IndexError::TooManyEntries)
    } else {
        None
    }
}

/// The report is that of the audit of the volumes: how each was found and
/// how many entries it gave, and for every stripe the numbers of its inner and of its outer parity shards,
/// all of them and those that still have their digest.
pub open spec fn audited(rep: ParityAuditReport, vols: Seq<Option<Seq<u8>>>, limits: IndexLimits) -> bool {
    let n = vols.len() as int;
    &&& rep.volumes == vols.len()
    &&& rep.statuses@.len() == vols.len()
    &&& forall|v: int| 0 <= v < vols.len() ==> #[trigger] rep.statuses@[v] == status_of(vols[v], limits)
    &&& rep.entry_counts@.len() == vols.len()
    &&& forall|v: int|
        0 <= v < vols.len() ==> #[trigger] rep.entry_counts@[v] == found_in(vols[v], limits).len()
    &&& tallies(
        rep.stripe_parity_counts@,
        |s: u32| counted_in_volumes(vols, limits, n, false, false, s),
    )
    &&& tallies(
        rep.stripe_parity_verified@,
        |s: u32| counted_in_volumes(vols, limits, n, false, true, s),
    )
    &&& tallies(
        rep.stripe_outer_counts@,
        |s: u32| counted_in_volumes(vols, limits, n, true, false, s),
    )
    &&& tallies(
        rep.stripe_outer_verified@,
        |s: u32| counted_in_volumes(vols, limits, n, true, true, s),
    )
}

/// Surveys every volume and counts its parity shards per stripe. A volume
/// that could not be opened is given as nothing. A volume that cannot be read
/// is reported with its status and adds no entry; the audit goes on with the
/// next. Outer parity shards are counted for the stripe that they protect.
/// The audit fails only where the volumes hold more entries than the machine
/// can count.
pub fn audit(volumes: &Vec<Option<Vec<u8>>>, limits: &IndexLimits) -> (r: Result<
    ParityAuditReport,
    IndexError,
>)
    ensures
        match r {
            Ok(rep) => audit_error(content_views(volumes@), *limits) is None && audited(
                rep,
                content_views(volumes@),
                *limits,
            ),
            Err(e) => audit_error(content_views(volumes@), *limits) == Some(e),
        },
{
    let ghost vols = content_views(volumes@);
    let mut inner: HashMap<u32, usize> = HashMap::new();
    let mut inner_ok: HashMap<u32, usize> = HashMap::new();
    let mut outer: HashMap<u32, usize> = HashMap::new();
    let mut outer_ok: HashMap<u32, usize> = HashMap::new();
    let mut statuses: Vec<VolumeStatus> = Vec::new();
    let mut entry_counts: Vec<usize> = Vec::new();
    let mut seen: usize = 0;
    let mut v: usize = 0;
    while v < volumes.len()
        invariant
            v <= volumes.len(),
            vols == content_views(volumes@),
            vols.len() == volumes@.len(),
            seen == entries_in_volumes(vols, *limits, v as int),
            statuses@.len() == v,
            forall|x: int| 0 <= x < v ==> #[trigger] statuses@[x] == status_of(vols[x], *limits),
            entry_counts@.len() == v,
            forall|x: int|
                0 <= x < v ==> #[trigger] entry_counts@[x] == found_in(vols[x], *limits).len(),
            tallies(inner@, |s: u32| counted_in_volumes(vols, *limits, v as int, false, false, s)),
            tallies(inner_ok@, |s: u32| counted_in_volumes(vols, *limits, v as int, false, true, s)),
            tallies(outer@, |s: u32| counted_in_volumes(vols, *limits, v as int, true, false, s)),
            tallies(outer_ok@, |s: u32| counted_in_volumes(vols, *limits, v as int, true, true, s)),
        decreases volumes.len() - v,
    {
        match &volumes[v] {
            None => {
                assert(vols[v as int] is None);
                statuses.push(VolumeStatus::OpenError);
                entry_counts.push(0);
            },
            Some(bytes) => {
                assert(vols[v as int] == Some(bytes@));
                let survey = survey_volume(bytes.as_slice(), limits);
                let entries = survey.entries;
                statuses.push(survey.status);
                assert(entries@ == entries_of(bytes@, *limits));
                entry_counts.push(entries.len());
                if entries.len() > usize::MAX - seen {
                    proof {
                        lemma_entries_grow(vols, *limits, v + 1, vols.len() as int);
                    }
                    return Err(IndexError::TooManyEntries);
                }
                let mut i: usize = 0;
                assert(entries@.take(0) =~= Seq::<VolumeEntry>::empty());
                while i < entries.len()
                    invariant
                        i <= entries.len(),
                        v < volumes.len(),
                        vols == content_views(volumes@),
                        vols[v as int] == Some(bytes@),
                        entries@ == entries_of(bytes@, *limits),
                        seen == entries_in_volumes(vols, *limits, v as int),
                        seen + entries.len() <= usize::MAX,
                        tallies(
                            inner@,
                            |s: u32| counted_sofar(vols, *limits, v as int, i as int, false, false, s),
                        ),
                        tallies(
                            inner_ok@,
                            |s: u32| counted_sofar(vols, *limits, v as int, i as int, false, true, s),
                        ),
                        tallies(
                            outer@,
                            |s: u32| counted_sofar(vols, *limits, v as int, i as int, true, false, s),
                        ),
                        tallies(
                            outer_ok@,
                            |s: u32| counted_sofar(vols, *limits, v as int, i as int, true, true, s),
                        ),
                    decreases entries.len() - i,
                {
                    let kind = shard_kind(&entries[i]);
                    let sound = verify_shard(bytes.as_slice(), &entries[i]);
                    proof {
                        assert forall|a: bool, b: bool, t: u32|
                            #[trigger] counted_sofar(vols, *limits, v as int, i + 1, a, b, t)
                                == counted_sofar(vols, *limits, v as int, i as int, a, b, t) + (
                            if kind == kind_for(a, t) && (!b || sound) {
                                1nat
                            } else {
                                0nat
                            }) && counted_sofar(vols, *limits, v as int, i + 1, a, b, t) <= seen
                                + i + 1 by {
                            lemma_counted_step(bytes@, entries@, i as int, a, b, t);
                            lemma_counted_le_total(vols, *limits, v as int, a, b, t);
                            lemma_counted_le_len(bytes@, entries@.take(i + 1), a, b, t);
                        }
                    }
                    match kind {
                        ShardKind::Inner(s) => {
                            bump(
                                &mut inner,
                                s,
                                Ghost(
                                    |t: u32|
                                        counted_sofar(vols, *limits, v as int, i as int, false, false, t),
                                ),
                                Ghost(
                                    |t: u32|
                                        counted_sofar(vols, *limits, v as int, i + 1, false, false, t),
                                ),
                            );
                            if sound {
                                bump(
                                    &mut inner_ok,
                                    s,
                                    Ghost(
                                        |t: u32|
                                            counted_sofar(vols, *limits, v as int, i as int, false, true, t),
                                    ),
                                    Ghost(
                                        |t: u32|
                                            counted_sofar(vols, *limits, v as int, i + 1, false, true, t),
                                    ),
                                );
                            }
                        },
                        ShardKind::Outer(s) => {
                            bump(
                                &mut outer,
                                s,
                                Ghost(
                                    |t: u32|
                                        counted_sofar(vols, *limits, v as int, i as int, true, false, t),
                                ),
                                Ghost(
                                    |t: u32|
                                        counted_sofar(vols, *limits, v as int, i + 1, true, false, t),
                                ),
                            );
                            if sound {
                                bump(
                                    &mut outer_ok,
                                    s,
                                    Ghost(
                                        |t: u32|
                                            counted_sofar(vols, *limits, v as int, i as int, true, true, t),
                                    ),
                                    Ghost(
                                        |t: u32|
                                            counted_sofar(vols, *limits, v as int, i + 1, true, true, t),
                                    ),
                                );
                            }
                        },
                        ShardKind::Stray => {},
                    }
                    i += 1;
                }
                assert(entries@.take(i as int) =~= entries@);
                seen = seen + entries.len();
            },
        }
        proof {
            assert forall|a: bool, b: bool, t: u32|
                #[trigger] counted_in_volumes(vols, *limits, v + 1, a, b, t) == (match vols[v as int] {
                    Some(f) => counted_sofar(
                        vols,
                        *limits,
                        v as int,
                        entries_of(f, *limits).len() as int,
                        a,
                        b,
                        t,
                    ),
                    None => counted_in_volumes(vols, *limits, v as int, a, b, t),
                }) by {
                if vols[v as int] is Some {
                    let f = vols[v as int]->0;
                    let es = entries_of(f, *limits);
                    assert(es.take(es.len() as int) =~= es);
                }
            }
        }
        v += 1;
    }
    Ok(
        ParityAuditReport {
            volumes: volumes.len(),
            statuses,
            entry_counts,
            stripe_parity_counts: inner,
            stripe_parity_verified: inner_ok,
            stripe_outer_counts: outer,
            stripe_outer_verified: outer_ok,
        },
    )
}

} // verus!
