//! Systematic Reed-Solomon code over GF(2^8): K data shards, M parity shards.

use vstd::prelude::*;

verus! {

/// Why the codec refuses its parameters or its shards.
#[derive(Clone, Copy, Debug, PartialEq, Eq, Structural)]
pub enum CodecError {
    /// K or M is zero, or K + M is above 256.
    BadParams,
    /// The number of shards is not the one that the codec was made for.
    ShardCount,
    /// A shard that is present is empty, or two of them differ in length.
    BadShardSize,
    /// Fewer than K shards are present.
    InsufficientShards,
}

/// The M parity shards that `ReedSolomon::encode` of `reed_solomon_erasure`,
/// made for K data and M parity shards over GF(2^8), computes from K data
/// shards.
pub uninterp spec fn rs_parity(k: int, m: int, data: Seq<Seq<u8>>) -> Seq<Seq<u8>>;

/// The K + M shards that `ReedSolomon::reconstruct` of `reed_solomon_erasure`
/// leaves where it succeeds on the given shards, some of them absent.
pub uninterp spec fn rs_reconstructed(k: int, m: int, shards: Seq<Option<Seq<u8>>>) -> Seq<
    Seq<u8>,
>;

/// Views of a list of shards.
pub open spec fn shard_views(shards: Seq<Vec<u8>>) -> Seq<Seq<u8>> {
    Seq::new(shards.len(), |i: int| shards[i]@)
}

/// Views of a list of shards of which some are absent.
pub open spec fn opt_shard_views(shards: Seq<Option<Vec<u8>>>) -> Seq<Option<Seq<u8>>> {
    Seq::new(
        shards.len(),
        |i: int|
            match shards[i] {
                Some(v) => Some(v@),
                None => None,
            },
    )
}

/// Views of a list of shards that are all present.
pub open spec fn filled_views(shards: Seq<Option<Vec<u8>>>) -> Seq<Seq<u8>> {
    Seq::new(shards.len(), |i: int| shards[i]->0@)
}

/// All shards have the same length, which is not zero.
pub open spec fn uniform(shards: Seq<Seq<u8>>) -> bool {
    shards.len() > 0 && shards[0].len() > 0 && forall|i: int|
        0 <= i < shards.len() ==> (#[trigger] shards[i]).len() == shards[0].len()
}

/// The shards that are present have one length, which is `len` and not zero.
pub open spec fn present_uniform(shards: Seq<Option<Seq<u8>>>, len: nat) -> bool {
    len > 0 && forall|i: int|
        0 <= i < shards.len() ==> ((#[trigger] shards[i]) matches Some(s) ==> s.len() == len)
}

/// Some present shard is empty, or two present shards differ in length.
pub open spec fn present_sizes_bad(shards: Seq<Option<Seq<u8>>>) -> bool {
    ||| exists|i: int| 0 <= i < shards.len() && (#[trigger] shards[i]) == Some(Seq::<u8>::empty())
    ||| exists|i: int, j: int|
        0 <= i < shards.len() && 0 <= j < shards.len() && (#[trigger] shards[i]) is Some && (
        #[trigger] shards[j]) is Some && shards[i]->0.len() != shards[j]->0.len()
}

/// Number of shards that are present.
pub open spec fn present_count(shards: Seq<Option<Seq<u8>>>) -> nat
    decreases shards.len(),
{
    if shards.len() == 0 {
        0
    } else {
        present_count(shards.drop_last()) + if shards.last() is Some {
            1nat
        } else {
            0nat
        }
    }
}

/// The shards `shards` show nothing that contradicts their being what is left
/// of the data `data` and its parity: each present data shard is the data
/// shard of that place, each present parity shard the parity of that place.
pub open spec fn survivors_of(k: int, m: int, data: Seq<Seq<u8>>, shards: Seq<Option<Seq<u8>>>) -> bool {
    &&& data.len() == k
    &&& shards.len() == k + m
    &&& uniform(data)
    &&& forall|i: int|
        0 <= i < k + m ==> ((#[trigger] shards[i]) matches Some(s) ==> s == (data + rs_parity(
            k,
            m,
            data,
        ))[i])
}

/// Calls `ReedSolomon::new(k, m)` of `reed_solomon_erasure::galois_8` and
/// `encode` on the shards. For parameters and shards of the required shape
/// the source shows no error: the call succeeds, leaves the K data shards as
/// they are and overwrites the M parity shards, keeping their length, with
/// the parity named for the data.
#[verifier::external_body]
fn rs_encode_call(k: usize, m: usize, shards: &mut Vec<Vec<u8>>) -> (ok: bool)
    requires
        0 < k,
        0 < m,
        k + m <= 256,
        old(shards)@.len() == k + m,
        uniform(shard_views(old(shards)@)),
    ensures
        ok,
        final(shards)@.len() == k + m,
        uniform(shard_views(final(shards)@)),
        final(shards)@[0]@.len() == old(shards)@[0]@.len(),
        forall|i: int| 0 <= i < k ==> (#[trigger] final(shards)@[i])@ == old(shards)@[i]@,
        shard_views(final(shards)@).subrange(k as int, k + m) == rs_parity(
            k as int,
            m as int,
            shard_views(old(shards)@).subrange(0, k as int),
        ),
{
    match reed_solomon_erasure::galois_8::ReedSolomon::new(k, m) {
        Ok(rs) => rs.encode(&mut shards[..]).is_ok(),
        Err(_) => false,
    }
}

/// Calls `ReedSolomon::new(k, m)` of `reed_solomon_erasure::galois_8` and
/// `reconstruct` on the shards. With K + M slots, at least K of them present
/// and all present shards of one length that is not zero, the source shows no
/// error: the call succeeds, leaves the present shards as they are and fills
/// every absent slot with a shard of their length. The shards it leaves are
/// named. Where the present shards are what is left of some data and its
/// parity, the code is documented to restore them: the shards it leaves are
/// then that data and its parity. This last claim is the erasure property of
/// the code; nothing here proves it.
#[verifier::external_body]
fn rs_reconstruct_call(k: usize, m: usize, shards: &mut Vec<Option<Vec<u8>>>) -> (ok: bool)
    requires
        0 < k,
        0 < m,
        k + m <= 256,
        old(shards)@.len() == k + m,
        !present_sizes_bad(opt_shard_views(old(shards)@)),
        present_count(opt_shard_views(old(shards)@)) >= k,
    ensures
        ok,
        final(shards)@.len() == k + m,
        forall|i: int| 0 <= i < k + m ==> (#[trigger] final(shards)@[i]) is Some,
        forall|i: int, j: int|
            0 <= i < k + m && 0 <= j < k + m ==> (#[trigger] final(shards)@[i])->0@.len() == (
            #[trigger] final(shards)@[j])->0@.len(),
        forall|i: int|
            0 <= i < k + m && old(shards)@[i] is Some ==> (#[trigger] final(shards)@[i])->0@
                == old(shards)@[i]->0@,
        filled_views(final(shards)@) == rs_reconstructed(
            k as int,
            m as int,
            opt_shard_views(old(shards)@),
        ),
        forall|data: Seq<Seq<u8>>| #[trigger]
            survivors_of(k as int, m as int, data, opt_shard_views(old(shards)@))
                ==> filled_views(final(shards)@) == data + rs_parity(k as int, m as int, data),
{
    match reed_solomon_erasure::galois_8::ReedSolomon::new(k, m) {
        Ok(rs) => rs.reconstruct(&mut shards[..]).is_ok(),
        Err(_) => false,
    }
}

/// A Reed-Solomon codec with K data shards and M parity shards.
#[derive(Clone, Copy, Debug, PartialEq, Eq, Structural)]
pub struct RsCodec {
    pub k: usize,
    pub m: usize,
}

/// The parameters of a codec: K and M at least 1, at most 256 shards in all.
pub open spec fn valid_params(k: int, m: int) -> bool {
    0 < k && 0 < m && k + m <= 256
}

impl RsCodec {
    /// The codec has valid parameters.
    pub open spec fn wf(&self) -> bool {
        valid_params(self.k as int, self.m as int)
    }

    /// A codec for K data and M parity shards. Fails with `BadParams` exactly
    /// where K or M is zero or K + M is above 256.
    pub fn new(k: usize, m: usize) -> (r: Result<RsCodec, CodecError>)
        ensures
            match r {
                Ok(c) => c.k == k && c.m == m && valid_params(k as int, m as int),
                Err(e) => e == CodecError::BadParams && !valid_params(k as int, m as int),
            },
    {
        if k == 0 || m == 0 || k > 256 || m > 256 - k {
            Err(CodecError::BadParams)
        } else {
            Ok(RsCodec { k, m })
        }
    }

    /// What `encode` answers on the given shards: the first check that fails,
    /// in the order parameters, number of shards, sizes.
    pub open spec fn encode_error(&self, shards: Seq<Seq<u8>>) -> Option<CodecError> {
        if !self.wf() {
            Some(CodecError::BadParams)
        } else if shards.len() != self.k + self.m {
            Some(CodecError::ShardCount)
        } else if !uniform(shards) {
            Some(CodecError::BadShardSize)
        } else {
            None
        }
    }

    /// Computes the parity of the first K shards into the last M shards,
    /// whatever these held. On an error the shards are left as they were.
    pub fn encode(&self, shards: &mut Vec<Vec<u8>>) -> (r: Result<(), CodecError>)
        ensures
            match r {
                Ok(_) => {
                    &&& self.encode_error(shard_views(old(shards)@)) is None
                    &&& final(shards)@.len() == self.k + self.m
                    &&& uniform(shard_views(final(shards)@))
                    &&& final(shards)@[0]@.len() == old(shards)@[0]@.len()
                    &&& forall|i: int|
                        0 <= i < self.k ==> (#[trigger] final(shards)@[i])@ == old(shards)@[i]@
                    &&& shard_views(final(shards)@).subrange(self.k as int, self.k + self.m)
                        == rs_parity(
                        self.k as int,
                        self.m as int,
                        shard_views(old(shards)@).subrange(0, self.k as int),
                    )
                },
                Err(e) => self.encode_error(shard_views(old(shards)@)) == Some(e) && final(shards)@ == old(shards)@,
            },
    {
        if self.k == 0 || self.m == 0 || self.k > 256 || self.m > 256 - self.k {
            return Err(CodecError::BadParams);
        }
        if shards.len() != self.k + self.m {
            return Err(CodecError::ShardCount);
        }
        let len: usize = shards[0].len();
        if len == 0 {
            assert(shard_views(shards@)[0].len() == 0);
            return Err(CodecError::BadShardSize);
        }
        let mut i: usize = 0;
        while i < shards.len()
            invariant
                i <= shards.len(),
                shards.len() > 0,
                self.wf(),
                shards@ == old(shards)@,
                shards.len() == self.k + self.m,
                len == shards@[0]@.len(),
                forall|j: int| 0 <= j < i ==> (#[trigger] shards@[j])@.len() == len,
            decreases shards.len() - i,
        {
            if shards[i].len() != len {
                assert(shard_views(shards@)[i as int].len() != shard_views(shards@)[0].len());
                return Err(CodecError::BadShardSize);
            }
            i += 1;
        }
        assert(uniform(shard_views(shards@))) by {
            assert(shard_views(shards@)[0].len() == len);
            assert forall|j: int| 0 <= j < shards@.len() implies (#[trigger] shard_views(
                shards@,
            )[j]).len() == len by {
                assert(shards@[j]@.len() == len);
            }
        }
        let ok = rs_encode_call(self.k, self.m, shards);
        Ok(())
    }

    /// What `reconstruct` answers on the given shards: the first check that
    /// fails, in the order parameters, number of shards, sizes, number
    /// present.
    pub open spec fn reconstruct_error(&self, shards: Seq<Option<Seq<u8>>>) -> Option<CodecError> {
        if !self.wf() {
            Some(CodecError::BadParams)
        } else if shards.len() != self.k + self.m {
            Some(CodecError::ShardCount)
        } else if present_sizes_bad(shards) {
            Some(CodecError::BadShardSize)
        } else if present_count(shards) < self.k {
            Some(CodecError::InsufficientShards)
        } else {
            None
        }
    }

    /// Fills every absent shard from those that are present. Needs at least K
    /// of the K + M shards. Present shards are left as they are; on an error
    /// all shards are. Where the present shards are what is left of some data
    /// and its parity, the result is that data and its parity.
    pub fn reconstruct(&self, shards: &mut Vec<Option<Vec<u8>>>) -> (r: Result<(), CodecError>)
        ensures
            match r {
                Ok(_) => {
                    let before = opt_shard_views(old(shards)@);
                    &&& self.reconstruct_error(before) is None
                    &&& final(shards)@.len() == self.k + self.m
                    &&& forall|i: int|
                        0 <= i < self.k + self.m ==> (#[trigger] final(shards)@[i]) is Some
                    &&& forall|i: int, j: int|
                        0 <= i < self.k + self.m && 0 <= j < self.k + self.m ==> (
                        #[trigger] final(shards)@[i])->0@.len() == (#[trigger] final(shards)@[j])->0@.len()
                    &&& forall|i: int|
                        0 <= i < self.k + self.m && old(shards)@[i] is Some ==> (
                        #[trigger] final(shards)@[i])->0@ == old(shards)@[i]->0@
                    &&& filled_views(final(shards)@) == rs_reconstructed(
                        self.k as int,
                        self.m as int,
                        before,
                    )
                    &&& forall|data: Seq<Seq<u8>>| #[trigger]
                        survivors_of(self.k as int, self.m as int, data, before) ==> filled_views(
                            final(shards)@,
                        ) == data + rs_parity(self.k as int, self.m as int, data)
                },
                Err(e) => self.reconstruct_error(opt_shard_views(old(shards)@)) == Some(e)
                    && final(shards)@ == old(shards)@,
            },
    {
        if self.k == 0 || self.m == 0 || self.k > 256 || self.m > 256 - self.k {
            return Err(CodecError::BadParams);
        }
        if shards.len() != self.k + self.m {
            return Err(CodecError::ShardCount);
        }
        let ghost views = opt_shard_views(shards@);
        let mut present: usize = 0;
        let mut len: usize = 0;
        let mut i: usize = 0;
        while i < shards.len()
            invariant
                i <= shards.len(),
                shards.len() <= 256,
                self.wf(),
                shards@ == old(shards)@,
                shards.len() == self.k + self.m,
                views == opt_shard_views(shards@),
                present == present_count(views.take(i as int)),
                present <= i,
                present == 0 ==> forall|j: int| 0 <= j < i ==> (#[trigger] views[j]) is None,
                present > 0 ==> present_uniform(views.take(i as int), len as nat),
                present > 0 ==> exists|j: int|
                    0 <= j < i && (#[trigger] views[j]) is Some && views[j]->0.len() == len,
            decreases shards.len() - i,
        {
            proof {
                assert(views.take(i + 1).drop_last() =~= views.take(i as int));
                assert(views.take(i + 1).last() == views[i as int]);
            }
            match &shards[i] {
                None => {
                    assert(views[i as int] is None);
                    assert(present > 0 ==> present_uniform(views.take(i + 1), len as nat)) by {
                        if present > 0 {
                            assert forall|j: int| 0 <= j < i + 1 implies ((
                            #[trigger] views.take(i + 1)[j]) matches Some(s) ==> s.len()
                                == len) by {
                                if j < i {
                                    assert(views.take(i as int)[j] == views.take(i + 1)[j]);
                                }
                            }
                        }
                    }
                },
                Some(s) => {
                    let l = s.len();
                    assert(views[i as int] == Some(s@));
                    if l == 0 {
                        assert(views[i as int] == Some(Seq::<u8>::empty())) by {
                            assert(s@ =~= Seq::<u8>::empty());
                        }
                        return Err(CodecError::BadShardSize);
                    }
                    if present > 0 && l != len {
                        proof {
                            let j = choose|j: int|
                                0 <= j < i && (#[trigger] views[j]) is Some && views[j]->0.len()
                                    == len;
                            assert(views[j]->0.len() != views[i as int]->0.len());
                        }
                        return Err(CodecError::BadShardSize);
                    }
                    len = l;
                    present += 1;
                    assert(present_uniform(views.take(i + 1), len as nat)) by {
                        assert forall|j: int| 0 <= j < i + 1 implies ((#[trigger] views.take(
                            i + 1,
                        )[j]) matches Some(s) ==> s.len() == len) by {
                            if j < i {
                                assert(views.take(i as int)[j] == views.take(i + 1)[j]);
                                if present == 1 {
                                    assert(views[j] is None);
                                }
                            }
                        }
                    }
                },
            }
            i += 1;
        }
        assert(views.take(i as int) =~= views);
        if present < self.k {
            proof {
                if present > 0 {
                    lemma_uniform_not_bad(views, len as nat);
                } else {
                    assert(!present_sizes_bad(views));
                }
            }
            return Err(CodecError::InsufficientShards);
        }
        proof {
            lemma_uniform_not_bad(views, len as nat);
        }
        let ok = rs_reconstruct_call(self.k, self.m, shards);
        Ok(())
    }
}

/// Shards of one length that is not zero have no bad size among them.
pub(crate) proof fn lemma_uniform_not_bad(shards: Seq<Option<Seq<u8>>>, len: nat)
    requires
        present_uniform(shards, len),
    ensures
        !present_sizes_bad(shards),
{
    assert forall|i: int| 0 <= i < shards.len() implies (#[trigger] shards[i]) != Some(
        Seq::<u8>::empty(),
    ) by {
        if shards[i] is Some {
            assert(shards[i]->0.len() == len);
        }
    }
}

} // verus!
