//! The damage audit: how many chunks of each stripe are damaged, and whether
//! the worst stripe can still be repaired.

use crate::encode::lemma_stripe_start;
use crate::manifest::{parity_count, parity_shards, stripe_count, stripes_for, Manifest};
use crate::repair::{damaged_at, handled, lemma_handled_step, ref_table, scan_damage};
use crate::text::{decimal, push_decimal};
use crate::verify::{check_paths, content_views, verify_error, VerifyError};
use vstd::prelude::*;

verus! {

/// What the damage audit found.
#[derive(Debug)]
pub struct DamageReport {
    /// Number of damaged chunks of each stripe.
    pub per_stripe: Vec<usize>,
    /// Number of damaged chunks in all.
    pub total_bad: usize,
    /// Largest number of damaged chunks in one stripe.
    pub worst: usize,
    /// M, the number of parity shards per stripe.
    pub m: usize,
    /// Whether the worst stripe has no more damaged chunks than M.
    pub repairable: bool,
    /// By how many damaged chunks the worst stripe exceeds M.
    pub shortfall: usize,
}

/// Number of damaged chunks with global index from `from` up to `to`.
pub open spec fn damage_in(mf: Manifest, files: Seq<Option<Seq<u8>>>, from: int, to: int) -> nat
    decreases to - from,
{
    if to <= from {
        0
    } else {
        damage_in(mf, files, from, to - 1) + if damaged_at(mf, files, to - 1) {
            1nat
        } else {
            0nat
        }
    }
}

/// Number of damaged chunks of stripe `s`.
pub open spec fn stripe_damage(mf: Manifest, files: Seq<Option<Seq<u8>>>, s: int) -> nat {
    damage_in(
        mf,
        files,
        handled(s, mf.stripe_k as int, mf.total_chunks as int),
        handled(s + 1, mf.stripe_k as int, mf.total_chunks as int),
    )
}

/// M as the audit reports it: the number of parity shards per stripe, and the
/// largest number of the machine where M is larger.
pub open spec fn audit_m(mf: Manifest) -> int {
    let m = parity_count(mf.stripe_k as int, mf.parity_pct as int);
    if m > usize::MAX {
        usize::MAX as int
    } else {
        m
    }
}

/// Why the damage cannot be audited, if so: what stops the verifier, or a
/// manifest without data shards.
pub open spec fn damage_error(mf: Manifest, files: Seq<Option<Seq<u8>>>) -> Option<VerifyError> {
    match verify_error(mf, files) {
        Some(e) => Some(e),
        None => if mf.stripe_k == 0 {
            Some(VerifyError::BadManifest)
        } else {
            None
        },
    }
}

proof fn lemma_damage_split(mf: Manifest, files: Seq<Option<Seq<u8>>>, a: int, b: int, c: int)
    requires
        a <= b <= c,
    ensures
        damage_in(mf, files, a, c) == damage_in(mf, files, a, b) + damage_in(mf, files, b, c),
        damage_in(mf, files, b, c) <= c - b,
    decreases c - b,
{
    if b < c {
        lemma_damage_split(mf, files, a, b, c - 1);
    }
}

/// Counts the damaged chunks of every stripe and tells whether the worst
/// stripe can still be repaired, that is, whether it has no more damaged
/// chunks than there are parity shards per stripe.
pub fn damage_audit(mf: &Manifest, files: &Vec<Option<Vec<u8>>>) -> (r: Result<
    DamageReport,
    VerifyError,
>)
    ensures
        match r {
            Ok(rep) => {
                let cv = content_views(files@);
                &&& damage_error(*mf, cv) is None
                &&& rep.per_stripe@.len() == stripe_count(
                    mf.total_chunks as int,
                    mf.stripe_k as int,
                )
                &&& forall|s: int|
                    0 <= s < rep.per_stripe@.len() ==> (#[trigger] rep.per_stripe@[s])
                        == stripe_damage(*mf, cv, s)
                &&& rep.total_bad == damage_in(*mf, cv, 0, mf.total_chunks as int)
                &&& forall|s: int|
                    0 <= s < rep.per_stripe@.len() ==> (#[trigger] rep.per_stripe@[s]) <= rep.worst
                &&& rep.per_stripe@.len() == 0 ==> rep.worst == 0
                &&& rep.per_stripe@.len() > 0 ==> exists|s: int|
                    0 <= s < rep.per_stripe@.len() && (#[trigger] rep.per_stripe@[s]) == rep.worst
                &&& rep.m == audit_m(*mf)
                &&& rep.repairable == (rep.worst <= rep.m)
                &&& rep.shortfall == (if rep.worst <= rep.m {
                    0
                } else {
                    rep.worst - rep.m
                })
            },
            Err(e) => damage_error(*mf, content_views(files@)) == Some(e),
        },
{
    if files.len() != mf.files.len() {
        return Err(VerifyError::FileCount);
    }
    match check_paths(mf) {
        Some(e) => {
            return Err(VerifyError::UnsafePath(e));
        },
        None => {},
    }
    if mf.total_chunks > usize::MAX as u64 {
        return Err(VerifyError::BadManifest);
    }
    let refs = match ref_table(mf) {
        None => {
            return Err(VerifyError::BadManifest);
        },
        Some(x) => x,
    };
    let k: usize = mf.stripe_k;
    if k == 0 {
        return Err(VerifyError::BadManifest);
    }
    let ghost cv = content_views(files@);
    let damaged = scan_damage(mf, files, &refs);
    let total: usize = damaged.len();
    let stripes: usize = stripes_for(total, k);
    let mut per_stripe: Vec<usize> = Vec::new();
    let mut total_bad: usize = 0;
    let mut worst: usize = 0;
    let mut s: usize = 0;
    proof {
        assert(0 * (k as int) == 0) by (nonlinear_arith);
        if stripes == 0 {
            let x = total + k - 1;
            vstd::arithmetic::div_mod::lemma_fundamental_div_mod(x, k as int);
            vstd::arithmetic::div_mod::lemma_mod_bound(x, k as int);
            assert((k as int) * (x / (k as int)) == 0) by (nonlinear_arith)
                requires
                    x / (k as int) == 0,
            ;
        }
    }
    while s < stripes
        invariant
            s <= stripes,
            stripes == stripe_count(total as int, k as int),
            total == mf.total_chunks,
            total == damaged@.len(),
            k == mf.stripe_k,
            0 < k,
            forall|g: int| 0 <= g < damaged@.len() ==> (#[trigger] damaged@[g]) == damaged_at(*mf, cv, g),
            per_stripe@.len() == s,
            forall|x: int| 0 <= x < s ==> (#[trigger] per_stripe@[x]) == stripe_damage(*mf, cv, x),
            forall|x: int| 0 <= x < s ==> (#[trigger] per_stripe@[x]) <= worst,
            s == 0 ==> worst == 0,
            s > 0 ==> exists|x: int| 0 <= x < s && (#[trigger] per_stripe@[x]) == worst,
            handled(s as int, k as int, total as int) <= total,
            total_bad == damage_in(*mf, cv, 0, handled(s as int, k as int, total as int)),
            total_bad <= handled(s as int, k as int, total as int),
            s == stripes ==> handled(s as int, k as int, total as int) == total,
        decreases stripes - s,
    {
        proof {
            lemma_stripe_start(total as int, k as int, s as int);
        }
        let base: usize = s * k;
        let ghost start = per_stripe@;
        let mut count: usize = 0;
        let mut i: usize = 0;
        while i < k && i < total - base
            invariant
                i <= k,
                base + i <= total,
                total == damaged@.len(),
                forall|g: int|
                    0 <= g < damaged@.len() ==> (#[trigger] damaged@[g]) == damaged_at(*mf, cv, g),
                count == damage_in(*mf, cv, base as int, base + i),
                count <= i,
            decreases k - i,
        {
            if damaged[base + i] {
                count += 1;
            }
            i += 1;
        }
        proof {
            lemma_handled_step(s as int, k as int, total as int, i as int);
            lemma_damage_split(*mf, cv, 0, base as int, base + i);
        }
        total_bad = total_bad + count;
        if count > worst {
            worst = count;
        }
        per_stripe.push(count);
        proof {
            assert(per_stripe@[s as int] == stripe_damage(*mf, cv, s as int));
            if count == worst {
                assert(per_stripe@[s as int] == worst);
            } else {
                let x = choose|x: int| 0 <= x < s && (#[trigger] start[x]) == worst;
                assert(per_stripe@[x] == worst);
            }
        }
        s += 1;
    }
    let m: usize = match parity_shards(k, mf.parity_pct) {
        Some(m) => m,
        None => usize::MAX,
    };
    let repairable = worst <= m;
    let shortfall: usize = if repairable {
        0
    } else {
        worst - m
    };
    Ok(DamageReport { per_stripe, total_bad, worst, m, repairable, shortfall })
}

/// The line that tells whether the damage can be repaired: `Repairable: YES`
/// where the worst stripe has no more damaged chunks than M, else
/// `Repairable: NO` with the number of damaged chunks above M.
pub open spec fn repairable_line_of(worst: usize, m: usize) -> Seq<char> {
    if worst <= m {
        "Repairable: YES"@
    } else {
        "Repairable: NO (need "@ + decimal((worst - m) as nat) + " more in worst stripe)"@
    }
}

/// The line that tells whether the damage can be repaired, as it is printed.
pub fn repairable_line(worst: usize, m: usize) -> (s: String)
    ensures
        s@ == repairable_line_of(worst, m),
{
    if worst <= m {
        String::from_str("Repairable: YES")
    } else {
        let mut s = String::from_str("Repairable: NO (need ");
        push_decimal(&mut s, worst - m);
        s.append(" more in worst stripe)");
        s
    }
}

} // verus!
