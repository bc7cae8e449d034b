//! The global order of chunks: which chunk of which file stands at each
//! global index.

use vstd::prelude::*;

verus! {

/// Sum of the chunk counts of all files.
pub open spec fn total_chunks(counts: Seq<usize>) -> nat
    decreases counts.len(),
{
    if counts.len() == 0 {
        0
    } else {
        total_chunks(counts.drop_last()) + counts.last() as nat
    }
}

/// The largest chunk count of any file, 0 where there is no file.
pub open spec fn max_count(counts: Seq<usize>) -> nat
    decreases counts.len(),
{
    if counts.len() == 0 {
        0
    } else {
        let rest = max_count(counts.drop_last());
        if counts.last() as nat > rest {
            counts.last() as nat
        } else {
            rest
        }
    }
}

/// The chunks of file `fi` in file order.
pub open spec fn file_run(fi: int, count: int) -> Seq<(usize, usize)> {
    Seq::new(count as nat, |c: int| (fi as usize, c as usize))
}

/// Sequential order: the files one after the other, each with its chunks in
/// file order.
pub open spec fn sequential_order(counts: Seq<usize>) -> Seq<(usize, usize)>
    decreases counts.len(),
{
    if counts.len() == 0 {
        Seq::empty()
    } else {
        sequential_order(counts.drop_last()) + file_run(
            counts.len() - 1,
            counts.last() as int,
        )
    }
}

/// Chunk `r` of each of the first `upto` files that has one, in file order.
pub open spec fn round_run(counts: Seq<usize>, r: int, upto: int) -> Seq<(usize, usize)>
    decreases upto,
{
    if upto <= 0 {
        Seq::empty()
    } else {
        round_run(counts, r, upto - 1) + if counts[upto - 1] > r {
            seq![((upto - 1) as usize, r as usize)]
        } else {
            Seq::empty()
        }
    }
}

/// The first `rounds` rounds of the interleaved order.
pub open spec fn interleaved_rounds(counts: Seq<usize>, rounds: int) -> Seq<(usize, usize)>
    decreases rounds,
{
    if rounds <= 0 {
        Seq::empty()
    } else {
        interleaved_rounds(counts, rounds - 1) + round_run(
            counts,
            rounds - 1,
            counts.len() as int,
        )
    }
}

/// Interleaved order: round after round, each round taking the next chunk of
/// every file that still has one, in file order.
pub open spec fn interleaved_order(counts: Seq<usize>) -> Seq<(usize, usize)> {
    interleaved_rounds(counts, max_count(counts) as int)
}

/// The global order for files with the given chunk counts: entry `g` names
/// the file and the chunk within it that get global index `g`.
pub open spec fn global_order(counts: Seq<usize>, interleave: bool) -> Seq<(usize, usize)> {
    if interleave {
        interleaved_order(counts)
    } else {
        sequential_order(counts)
    }
}

/// `(fi, ci)` names a chunk of one of the files.
pub open spec fn valid_chunk(counts: Seq<usize>, fi: int, ci: int) -> bool {
    0 <= fi < counts.len() && 0 <= ci < counts[fi]
}

proof fn lemma_max_count_bounds(counts: Seq<usize>)
    ensures
        forall|f: int| 0 <= f < counts.len() ==> (#[trigger] counts[f]) <= max_count(counts),
        max_count(counts) <= usize::MAX,
        counts.len() > 0 ==> exists|f: int|
            0 <= f < counts.len() && (#[trigger] counts[f]) == max_count(counts),
    decreases counts.len(),
{
    if counts.len() > 0 {
        let rest = counts.drop_last();
        lemma_max_count_bounds(rest);
        assert forall|f: int| 0 <= f < counts.len() implies (#[trigger] counts[f]) <= max_count(
            counts,
        ) by {
            if f < rest.len() {
                assert(rest[f] == counts[f]);
            }
        }
        if counts.last() as nat > max_count(rest) || rest.len() == 0 {
            assert(counts[counts.len() - 1] == max_count(counts));
        } else {
            let f = choose|f: int| 0 <= f < rest.len() && (#[trigger] rest[f]) == max_count(rest);
            assert(counts[f] == max_count(counts));
        }
    }
}

proof fn lemma_sequential(counts: Seq<usize>)
    requires
        counts.len() <= usize::MAX,
    ensures
        sequential_order(counts).len() == total_chunks(counts),
        forall|g: int|
            0 <= g < sequential_order(counts).len() ==> valid_chunk(
                counts,
                (#[trigger] sequential_order(counts)[g]).0 as int,
                sequential_order(counts)[g].1 as int,
            ),
        forall|g: int, h: int|
            0 <= g < h < sequential_order(counts).len() ==> {
                let a = #[trigger] sequential_order(counts)[g];
                let b = #[trigger] sequential_order(counts)[h];
                a.0 < b.0 || (a.0 == b.0 && a.1 < b.1)
            },
        forall|fi: int, ci: int|
            valid_chunk(counts, fi, ci) ==> exists|g: int|
                0 <= g < sequential_order(counts).len() && #[trigger] sequential_order(counts)[g]
                    == (fi as usize, ci as usize),
    decreases counts.len(),
{
    if counts.len() > 0 {
        let rest = counts.drop_last();
        let last = counts.len() - 1;
        let run = file_run(last, counts.last() as int);
        let prev = sequential_order(rest);
        let all = sequential_order(counts);
        lemma_sequential(rest);
        assert(all == prev + run);
        assert forall|g: int| 0 <= g < all.len() implies valid_chunk(
            counts,
            (#[trigger] all[g]).0 as int,
            all[g].1 as int,
        ) by {
            if g < prev.len() {
                assert(all[g] == prev[g]);
                assert(valid_chunk(rest, prev[g].0 as int, prev[g].1 as int));
                assert(rest[prev[g].0 as int] == counts[prev[g].0 as int]);
            } else {
                assert(all[g] == run[g - prev.len()]);
            }
        }
        assert forall|g: int, h: int| 0 <= g < h < all.len() implies {
            let a = #[trigger] all[g];
            let b = #[trigger] all[h];
            a.0 < b.0 || (a.0 == b.0 && a.1 < b.1)
        } by {
            if h < prev.len() {
                assert(all[g] == prev[g] && all[h] == prev[h]);
            } else if g < prev.len() {
                assert(all[g] == prev[g]);
                assert(valid_chunk(rest, prev[g].0 as int, prev[g].1 as int));
                assert(all[h] == run[h - prev.len()]);
            } else {
                assert(all[g] == run[g - prev.len()]);
                assert(all[h] == run[h - prev.len()]);
            }
        }
        assert forall|fi: int, ci: int| valid_chunk(counts, fi, ci) implies exists|g: int|
            0 <= g < all.len() && #[trigger] all[g] == (fi as usize, ci as usize) by {
            if fi < last {
                assert(rest[fi] == counts[fi]);
                assert(valid_chunk(rest, fi, ci));
                let g = choose|g: int|
                    0 <= g < prev.len() && #[trigger] prev[g] == (fi as usize, ci as usize);
                assert(all[g] == prev[g]);
            } else {
                let g = prev.len() + ci;
                assert(all[g] == run[ci]);
            }
        }
    }
}

proof fn lemma_round_run(counts: Seq<usize>, r: int, upto: int)
    requires
        0 <= r <= usize::MAX,
        0 <= upto <= counts.len(),
        counts.len() <= usize::MAX,
    ensures
        round_run(counts, r, upto).len() <= upto,
        forall|g: int|
            0 <= g < round_run(counts, r, upto).len() ==> {
                let a = #[trigger] round_run(counts, r, upto)[g];
                a.1 == r && a.0 < upto && counts[a.0 as int] > r
            },
        forall|g: int, h: int|
            0 <= g < h < round_run(counts, r, upto).len() ==> (#[trigger] round_run(
                counts,
                r,
                upto,
            )[g]).0 < (#[trigger] round_run(counts, r, upto)[h]).0,
        forall|fi: int|
            0 <= fi < upto && counts[fi] > r ==> exists|g: int|
                0 <= g < round_run(counts, r, upto).len() && #[trigger] round_run(
                    counts,
                    r,
                    upto,
                )[g] == (fi as usize, r as usize),
    decreases upto,
{
    if upto > 0 {
        lemma_round_run(counts, r, upto - 1);
        let prev = round_run(counts, r, upto - 1);
        let all = round_run(counts, r, upto);
        assert forall|g: int| 0 <= g < all.len() implies {
            let a = #[trigger] all[g];
            a.1 == r && a.0 < upto && counts[a.0 as int] > r
        } by {
            if g < prev.len() {
                assert(all[g] == prev[g]);
            }
        }
        assert forall|g: int, h: int| 0 <= g < h < all.len() implies (#[trigger] all[g]).0 < (
        #[trigger] all[h]).0 by {
            assert(all[g] == prev[g]);
            if h < prev.len() {
                assert(all[h] == prev[h]);
            }
        }
        assert forall|fi: int| 0 <= fi < upto && counts[fi] > r implies exists|g: int|
            0 <= g < all.len() && #[trigger] all[g] == (fi as usize, r as usize) by {
            if fi < upto - 1 {
                let g = choose|g: int|
                    0 <= g < prev.len() && #[trigger] prev[g] == (fi as usize, r as usize);
                assert(all[g] == prev[g]);
            } else {
                assert(all[prev.len() as int] == (fi as usize, r as usize));
            }
        }
    }
}

/// The number of chunks in the first `rounds` rounds, taken over the first
/// `upto` files only.
spec fn rounds_len(counts: Seq<usize>, rounds: int, upto: int) -> nat
    decreases rounds,
{
    if rounds <= 0 {
        0
    } else {
        rounds_len(counts, rounds - 1, upto) + round_run(counts, rounds - 1, upto).len()
    }
}

proof fn lemma_rounds_len_step(counts: Seq<usize>, rounds: int, upto: int)
    requires
        0 <= rounds,
        0 < upto <= counts.len(),
    ensures
        rounds_len(counts, rounds, upto) == rounds_len(counts, rounds, upto - 1) + if counts[upto
            - 1] < rounds {
            counts[upto - 1] as int
        } else {
            rounds
        },
    decreases rounds,
{
    if rounds > 0 {
        lemma_rounds_len_step(counts, rounds - 1, upto);
    }
}

proof fn lemma_rounds_len_zero(counts: Seq<usize>, rounds: int)
    ensures
        rounds_len(counts, rounds, 0) == 0,
    decreases rounds,
{
    if rounds > 0 {
        lemma_rounds_len_zero(counts, rounds - 1);
    }
}

proof fn lemma_rounds_len_total(counts: Seq<usize>, rounds: int, upto: int)
    requires
        0 <= rounds,
        0 <= upto <= counts.len(),
        forall|f: int| 0 <= f < upto ==> (#[trigger] counts[f]) <= rounds,
    ensures
        rounds_len(counts, rounds, upto) == total_chunks(counts.take(upto)),
    decreases upto,
{
    if upto == 0 {
        lemma_rounds_len_zero(counts, rounds);
        assert(counts.take(0) =~= Seq::<usize>::empty());
    } else {
        lemma_rounds_len_total(counts, rounds, upto - 1);
        lemma_rounds_len_step(counts, rounds, upto);
        assert(counts.take(upto).drop_last() =~= counts.take(upto - 1));
        assert(counts.take(upto).last() == counts[upto - 1]);
    }
}

proof fn lemma_interleaved_len(counts: Seq<usize>, rounds: int)
    ensures
        interleaved_rounds(counts, rounds).len() == rounds_len(counts, rounds, counts.len() as int),
    decreases rounds,
{
    if rounds > 0 {
        lemma_interleaved_len(counts, rounds - 1);
    }
}

proof fn lemma_interleaved_rounds(counts: Seq<usize>, rounds: int)
    requires
        0 <= rounds <= usize::MAX,
        counts.len() <= usize::MAX,
    ensures
        forall|g: int|
            0 <= g < interleaved_rounds(counts, rounds).len() ==> {
                let a = #[trigger] interleaved_rounds(counts, rounds)[g];
                a.1 < rounds && valid_chunk(counts, a.0 as int, a.1 as int)
            },
        forall|g: int, h: int|
            0 <= g < h < interleaved_rounds(counts, rounds).len() ==> {
                let a = #[trigger] interleaved_rounds(counts, rounds)[g];
                let b = #[trigger] interleaved_rounds(counts, rounds)[h];
                a.1 < b.1 || (a.1 == b.1 && a.0 < b.0)
            },
        forall|fi: int, ci: int|
            valid_chunk(counts, fi, ci) && ci < rounds ==> exists|g: int|
                0 <= g < interleaved_rounds(counts, rounds).len() && #[trigger] interleaved_rounds(
                    counts,
                    rounds,
                )[g] == (fi as usize, ci as usize),
    decreases rounds,
{
    if rounds > 0 {
        lemma_interleaved_rounds(counts, rounds - 1);
        lemma_round_run(counts, rounds - 1, counts.len() as int);
        let prev = interleaved_rounds(counts, rounds - 1);
        let run = round_run(counts, rounds - 1, counts.len() as int);
        let all = interleaved_rounds(counts, rounds);
        assert(all == prev + run);
        assert forall|g: int| 0 <= g < all.len() implies {
            let a = #[trigger] all[g];
            a.1 < rounds && valid_chunk(counts, a.0 as int, a.1 as int)
        } by {
            if g < prev.len() {
                assert(all[g] == prev[g]);
            } else {
                assert(all[g] == run[g - prev.len()]);
            }
        }
        assert forall|g: int, h: int| 0 <= g < h < all.len() implies {
            let a = #[trigger] all[g];
            let b = #[trigger] all[h];
            a.1 < b.1 || (a.1 == b.1 && a.0 < b.0)
        } by {
            if h < prev.len() {
                assert(all[g] == prev[g] && all[h] == prev[h]);
            } else if g < prev.len() {
                assert(all[g] == prev[g]);
                assert(all[h] == run[h - prev.len()]);
            } else {
                assert(all[g] == run[g - prev.len()]);
                assert(all[h] == run[h - prev.len()]);
            }
        }
        assert forall|fi: int, ci: int| valid_chunk(counts, fi, ci) && ci < rounds implies exists|
            g: int,
        |
            0 <= g < all.len() && #[trigger] all[g] == (fi as usize, ci as usize) by {
            if ci < rounds - 1 {
                let g = choose|g: int|
                    0 <= g < prev.len() && #[trigger] prev[g] == (fi as usize, ci as usize);
                assert(all[g] == prev[g]);
            } else {
                let g = choose|g: int|
                    0 <= g < run.len() && #[trigger] run[g] == (fi as usize, ci as usize);
                assert(all[prev.len() + g] == run[g]);
            }
        }
    }
}

/// The global order gives every chunk of every file exactly one global index,
/// and leaves no index unused: its length is the total number of chunks, each
/// entry names a chunk of a file, no two entries name the same chunk, and
/// every chunk is named. This holds in both ordering modes.
pub proof fn lemma_order_is_bijection(counts: Seq<usize>, interleave: bool)
    requires
        counts.len() <= usize::MAX,
    ensures
        global_order(counts, interleave).len() == total_chunks(counts),
        forall|g: int|
            0 <= g < global_order(counts, interleave).len() ==> valid_chunk(
                counts,
                (#[trigger] global_order(counts, interleave)[g]).0 as int,
                global_order(counts, interleave)[g].1 as int,
            ),
        forall|g: int, h: int|
            0 <= g < h < global_order(counts, interleave).len() ==> (#[trigger] global_order(
                counts,
                interleave,
            )[g]) != (#[trigger] global_order(counts, interleave)[h]),
        forall|fi: int, ci: int|
            valid_chunk(counts, fi, ci) ==> exists|g: int|
                0 <= g < global_order(counts, interleave).len() && #[trigger] global_order(
                    counts,
                    interleave,
                )[g] == (fi as usize, ci as usize),
{
    if interleave {
        lemma_max_count_bounds(counts);
        let rounds = max_count(counts) as int;
        lemma_interleaved_rounds(counts, rounds);
        lemma_interleaved_len(counts, rounds);
        lemma_rounds_len_total(counts, rounds, counts.len() as int);
        assert(counts.take(counts.len() as int) =~= counts);
        let all = interleaved_order(counts);
        assert forall|fi: int, ci: int| valid_chunk(counts, fi, ci) implies exists|g: int|
            0 <= g < all.len() && #[trigger] all[g] == (fi as usize, ci as usize) by {
            assert(counts[fi] <= max_count(counts));
        }
    } else {
        lemma_sequential(counts);
    }
}

/// Within each file the chunks keep their file order in the global order, in
/// both ordering modes.
pub proof fn lemma_order_keeps_file_order(counts: Seq<usize>, interleave: bool)
    requires
        counts.len() <= usize::MAX,
    ensures
        forall|g: int, h: int|
            0 <= g < h < global_order(counts, interleave).len() && (#[trigger] global_order(
                counts,
                interleave,
            )[g]).0 == (#[trigger] global_order(counts, interleave)[h]).0 ==> global_order(
                counts,
                interleave,
            )[g].1 < global_order(counts, interleave)[h].1,
{
    if interleave {
        lemma_max_count_bounds(counts);
        lemma_interleaved_rounds(counts, max_count(counts) as int);
    } else {
        lemma_sequential(counts);
    }
}

fn largest(counts: &Vec<usize>) -> (m: usize)
    ensures
        m == max_count(counts@),
{
    let mut m: usize = 0;
    let mut i: usize = 0;
    while i < counts.len()
        invariant
            i <= counts.len(),
            m == max_count(counts@.take(i as int)),
        decreases counts.len() - i,
    {
        proof {
            assert(counts@.take(i + 1).drop_last() =~= counts@.take(i as int));
            assert(counts@.take(i + 1).last() == counts@[i as int]);
        }
        if counts[i] > m {
            m = counts[i];
        }
        i += 1;
    }
    assert(counts@.take(i as int) =~= counts@);
    m
}

/// The global order for files with the given chunk counts. Entry `g` of the
/// result is the file and the chunk within it that get global index `g`.
pub fn assign_order(counts: &Vec<usize>, interleave: bool) -> (order: Vec<(usize, usize)>)
    ensures
        order@ == global_order(counts@, interleave),
{
    let mut order: Vec<(usize, usize)> = Vec::new();
    if interleave {
        let rounds = largest(counts);
        let mut r: usize = 0;
        while r < rounds
            invariant
                r <= rounds,
                order@ == interleaved_rounds(counts@, r as int),
            decreases rounds - r,
        {
            let ghost start = order@;
            let mut fi: usize = 0;
            while fi < counts.len()
                invariant
                    fi <= counts.len(),
                    order@ == start + round_run(counts@, r as int, fi as int),
                decreases counts.len() - fi,
            {
                if counts[fi] > r {
                    order.push((fi, r));
                }
                assert(order@ =~= start + round_run(counts@, r as int, fi + 1));
                fi += 1;
            }
            r += 1;
        }
    } else {
        let mut fi: usize = 0;
        while fi < counts.len()
            invariant
                fi <= counts.len(),
                order@ == sequential_order(counts@.take(fi as int)),
            decreases counts.len() - fi,
        {
            let ghost start = order@;
            let n: usize = counts[fi];
            let mut ci: usize = 0;
            while ci < n
                invariant
                    ci <= n,
                    fi < counts.len(),
                    order@ == start + file_run(fi as int, ci as int),
                decreases n - ci,
            {
                order.push((fi, ci));
                assert(order@ =~= start + file_run(fi as int, ci + 1));
                ci += 1;
            }
            proof {
                assert(counts@.take(fi + 1).drop_last() =~= counts@.take(fi as int));
                assert(counts@.take(fi + 1).last() == counts@[fi as int]);
            }
            fi += 1;
        }
        assert(counts@.take(fi as int) =~= counts@);
    }
    order
}

} // verus!
