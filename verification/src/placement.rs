//! Placement of parity shards on volumes: round-robin over the volumes,
//! passing over those whose capacity is used up.

use vstd::prelude::*;

verus! {

/// Where the round-robin stands: what each volume can still take, and the
/// volume whose turn is next.
pub struct PlacerState {
    pub remaining: Seq<usize>,
    pub next: int,
}

/// The volume after `i` in a ring of `n` volumes.
pub open spec fn next_slot(i: int, n: int) -> int {
    if i + 1 >= n {
        0
    } else {
        i + 1
    }
}

/// The volume that a search for room ends at, when it has looked at `tries`
/// volumes and now stands at `at`: the first volume with room from there on,
/// or where the search stands after a whole turn.
pub open spec fn scan(remaining: Seq<usize>, at: int, tries: int) -> int
    decreases remaining.len() - tries,
{
    if tries >= remaining.len() || remaining[at] > 0 {
        at
    } else {
        scan(remaining, next_slot(at, remaining.len() as int), tries + 1)
    }
}

/// The volume that takes the next shard: the first with room, starting at
/// the volume whose turn it is, and volume 0 where none has room.
pub open spec fn chosen(st: PlacerState) -> int {
    let at = scan(st.remaining, st.next, 0);
    if st.remaining[at] == 0 {
        0
    } else {
        at
    }
}

/// The state after one shard was placed: the chosen volume has one place
/// less, and the turn passes to the volume after it.
pub open spec fn after_step(st: PlacerState) -> PlacerState {
    let v = chosen(st);
    PlacerState {
        remaining: st.remaining.update(
            v,
            if st.remaining[v] > 0 {
                (st.remaining[v] - 1) as usize
            } else {
                0usize
            },
        ),
        next: next_slot(v, st.remaining.len() as int),
    }
}

/// The state after `n` shards were placed on volumes of the given capacities.
pub open spec fn state_after(capacities: Seq<usize>, n: nat) -> PlacerState
    decreases n,
{
    if n == 0 {
        PlacerState { remaining: capacities, next: 0 }
    } else {
        after_step(state_after(capacities, (n - 1) as nat))
    }
}

/// The volume that takes shard number `j` of the stream.
pub open spec fn place_of(capacities: Seq<usize>, j: nat) -> int {
    chosen(state_after(capacities, j))
}

/// A state over at least one volume whose turn marker is one of them.
pub open spec fn state_ok(st: PlacerState) -> bool {
    st.remaining.len() > 0 && 0 <= st.next < st.remaining.len()
}

/// The volume `t` places after `start` in a ring of `n` volumes.
pub open spec fn ring(start: int, t: int, n: int) -> int {
    (start + t) % n
}

proof fn lemma_scan(remaining: Seq<usize>, start: int, at: int, tries: int)
    requires
        remaining.len() > 0,
        0 <= start < remaining.len(),
        0 <= tries <= remaining.len(),
        0 <= at < remaining.len(),
        at == ring(start, tries, remaining.len() as int),
        forall|t: int|
            0 <= t < tries ==> remaining[#[trigger] ring(start, t, remaining.len() as int)] == 0,
    ensures
        0 <= scan(remaining, at, tries) < remaining.len(),
        remaining[scan(remaining, at, tries)] == 0 ==> forall|v: int|
            0 <= v < remaining.len() ==> remaining[v] == 0,
    decreases remaining.len() - tries,
{
    let n = remaining.len() as int;
    if tries >= n {
        assert forall|v: int| 0 <= v < n implies remaining[v] == 0 by {
            let t = if v >= start {
                v - start
            } else {
                v - start + n
            };
            assert(ring(start, t, n) == v) by {
                if v >= start {
                    vstd::arithmetic::div_mod::lemma_small_mod(v as nat, n as nat);
                } else {
                    assert(start + t == v + n);
                    vstd::arithmetic::div_mod::lemma_mod_add_multiples_vanish(v, n);
                    vstd::arithmetic::div_mod::lemma_small_mod(v as nat, n as nat);
                }
            }
        }
    } else if remaining[at] > 0 {
    } else {
        let nxt = next_slot(at, n);
        assert(nxt == ring(start, tries + 1, n)) by {
            lemma_next_slot_mod(start + tries, n);
        }
        assert forall|t: int| 0 <= t < tries + 1 implies remaining[#[trigger] ring(start, t, n)]
            == 0 by {
            if t == tries {
                assert(ring(start, t, n) == at);
            }
        }
        lemma_scan(remaining, start, nxt, tries + 1);
    }
}

proof fn lemma_next_slot_mod(x: int, n: int)
    requires
        n > 0,
        x >= 0,
    ensures
        next_slot(x % n, n) == (x + 1) % n,
        0 <= x % n < n,
{
    vstd::arithmetic::div_mod::lemma_fundamental_div_mod(x, n);
    vstd::arithmetic::div_mod::lemma_mod_bound(x, n);
    let q = x / n;
    let r = x % n;
    if r + 1 >= n {
        assert(x + 1 == (q + 1) * n + 0) by (nonlinear_arith)
            requires
                x == n * q + r,
                r + 1 == n,
        ;
        vstd::arithmetic::div_mod::lemma_fundamental_div_mod_converse(x + 1, n, q + 1, 0);
    } else {
        assert(x + 1 == q * n + (r + 1)) by (nonlinear_arith)
            requires
                x == n * q + r,
        ;
        vstd::arithmetic::div_mod::lemma_fundamental_div_mod_converse(x + 1, n, q, r + 1);
    }
}

/// The chosen volume is one of the volumes, and it has room unless no volume
/// has.
pub proof fn lemma_chosen_has_room(st: PlacerState)
    requires
        state_ok(st),
    ensures
        0 <= chosen(st) < st.remaining.len(),
        (exists|v: int| 0 <= v < st.remaining.len() && st.remaining[v] > 0)
            ==> st.remaining[chosen(st)] > 0,
        (forall|v: int| 0 <= v < st.remaining.len() ==> st.remaining[v] == 0) ==> chosen(st) == 0,
        state_ok(after_step(st)),
{
    vstd::arithmetic::div_mod::lemma_small_mod(st.next as nat, st.remaining.len());
    lemma_scan(st.remaining, st.next, st.next, 0);
}

/// After any number of placements the state is over the same volumes.
pub proof fn lemma_state_after_ok(capacities: Seq<usize>, n: nat)
    requires
        capacities.len() > 0,
    ensures
        state_ok(state_after(capacities, n)),
        state_after(capacities, n).remaining.len() == capacities.len(),
        0 <= place_of(capacities, n) < capacities.len(),
    decreases n,
{
    if n > 0 {
        lemma_state_after_ok(capacities, (n - 1) as nat);
        lemma_chosen_has_room(state_after(capacities, (n - 1) as nat));
    }
    lemma_chosen_has_room(state_after(capacities, n));
}

/// Hands out volumes to the shards of a stream.
pub struct Placer {
    remaining: Vec<usize>,
    next: usize,
}

impl Placer {
    /// Where the round-robin stands.
    pub closed spec fn state(&self) -> PlacerState {
        PlacerState { remaining: self.remaining@, next: self.next as int }
    }

    /// The placer is over at least one volume.
    pub open spec fn wf(&self) -> bool {
        state_ok(self.state())
    }

    /// A placer over volumes with the given capacities, counted in shards,
    /// that starts at volume 0.
    pub fn new(capacities: Vec<usize>) -> (p: Placer)
        requires
            capacities@.len() > 0,
        ensures
            p.wf(),
            p.state() == state_after(capacities@, 0),
    {
        Placer { remaining: capacities, next: 0 }
    }

    /// The volume for the next shard.
    pub fn place(&mut self) -> (v: usize)
        requires
            old(self).wf(),
        ensures
            final(self).wf(),
            v == chosen(old(self).state()),
            v < old(self).state().remaining.len(),
            final(self).state() == after_step(old(self).state()),
    {
        let n: usize = self.remaining.len();
        let ghost st = self.state();
        let mut at: usize = self.next;
        let mut tries: usize = 0;
        proof {
            lemma_chosen_has_room(st);
        }
        while tries < n && self.remaining[at] == 0
            invariant
                n == self.remaining.len(),
                self.remaining@ == st.remaining,
                0 <= at < n,
                tries <= n,
                scan(st.remaining, st.next, 0) == scan(st.remaining, at as int, tries as int),
            decreases n - tries,
        {
            at = if at + 1 >= n {
                0
            } else {
                at + 1
            };
            tries += 1;
        }
        let v: usize = if self.remaining[at] == 0 {
            0
        } else {
            at
        };
        let left: usize = self.remaining[v];
        self.remaining[v] = if left > 0 {
            left - 1
        } else {
            0
        };
        self.next = if v + 1 >= n {
            0
        } else {
            v + 1
        };
        assert(self.state().remaining =~= after_step(st).remaining);
        v
    }
}

/// While every volume has room, the shards go round: where every capacity
/// is above `j`, shard number `j` goes to volume `j` modulo the number of
/// volumes.
pub proof fn lemma_round_robin(capacities: Seq<usize>, j: nat)
    requires
        capacities.len() > 0,
        forall|v: int| 0 <= v < capacities.len() ==> (#[trigger] capacities[v]) > j,
    ensures
        place_of(capacities, j) == j as int % (capacities.len() as int),
        state_after(capacities, j).next == j as int % (capacities.len() as int),
        state_after(capacities, j).remaining.len() == capacities.len(),
        forall|v: int|
            0 <= v < capacities.len() ==> (#[trigger] state_after(capacities, j).remaining[v])
                >= capacities[v] - j,
    decreases j,
{
    let n = capacities.len() as int;
    if j == 0 {
        vstd::arithmetic::div_mod::lemma_small_mod(0, n as nat);
    } else {
        let prev = (j - 1) as nat;
        lemma_round_robin(capacities, prev);
        let st = state_after(capacities, prev);
        lemma_next_slot_mod(prev as int, n);
        assert(st.remaining[st.next] > 0);
        assert(scan(st.remaining, st.next, 0) == st.next);
        assert(chosen(st) == st.next);
    }
    let now = state_after(capacities, j);
    assert(now.remaining[now.next] > 0);
    assert(scan(now.remaining, now.next, 0) == now.next);
}

} // verus!
