//! Backends that encode the parity of one stripe.

use crate::rs_codec::{rs_parity, shard_views, uniform, valid_params, CodecError, RsCodec};
use vstd::prelude::*;

verus! {

/// A batch was encoded up to stripe `n`: the stripes before it have their
/// parity, and the outputs from `n` on are as they were.
pub open spec fn encoded_upto(
    k: int,
    m: int,
    data_stripes: Seq<Vec<Vec<u8>>>,
    before: Seq<Vec<Vec<u8>>>,
    after: Seq<Vec<Vec<u8>>>,
    n: int,
) -> bool {
    &&& after.len() == before.len()
    &&& forall|j: int|
        0 <= j < n ==> shard_views((#[trigger] after[j])@) == rs_parity(
            k,
            m,
            shard_views(data_stripes[j]@),
        )
    &&& forall|j: int| n <= j < after.len() ==> (#[trigger] after[j])@ == before[j]@
}

/// Something that can compute the M parity shards of K data shards. Every
/// backend answers with the same bytes for the same data.
pub trait ComputeBackend {
    /// Number of data shards per stripe.
    spec fn data_shards(&self) -> int;

    /// Number of parity shards per stripe.
    spec fn parity_shards(&self) -> int;

    /// The error with which this backend refuses to encode the given data
    /// shards into the given output buffers, if it refuses them.
    spec fn refusal(&self, data: Seq<Seq<u8>>, parity: Seq<Seq<u8>>) -> Option<CodecError>;

    /// Encodes one stripe: `data_shards` holds K shards of one length, and
    /// `parity_out` M buffers of that length, which are overwritten with the
    /// parity. It fails exactly where the backend refuses the stripe, and
    /// then leaves `parity_out` as it was.
    fn encode_stripe(&self, data_shards: &Vec<Vec<u8>>, parity_out: &mut Vec<Vec<u8>>) -> (r:
        Result<(), CodecError>)
        ensures
            match r {
                Ok(_) => {
                    &&& self.refusal(shard_views(data_shards@), shard_views(old(parity_out)@))
                        is None
                    &&& valid_params(self.data_shards(), self.parity_shards())
                    &&& data_shards@.len() == self.data_shards()
                    &&& old(parity_out)@.len() == self.parity_shards()
                    &&& final(parity_out)@.len() == self.parity_shards()
                    &&& uniform(shard_views(data_shards@ + old(parity_out)@))
                    &&& shard_views(final(parity_out)@) == rs_parity(
                        self.data_shards(),
                        self.parity_shards(),
                        shard_views(data_shards@),
                    )
                    &&& uniform(shard_views(data_shards@ + final(parity_out)@))
                },
                Err(e) => {
                    &&& self.refusal(shard_views(data_shards@), shard_views(old(parity_out)@))
                        == Some(e)
                    &&& final(parity_out)@ == old(parity_out)@
                },
            },
    ;

    /// Encodes several stripes, one after the other, and stops at the first
    /// that the backend refuses, with its error. Stripe `i` of `data_stripes`
    /// is encoded into entry `i` of `parity_out`, which must have at least as
    /// many entries; those beyond the stripes are left as they were, and so
    /// are those from a refused stripe on.
    fn encode_batch(&self, data_stripes: &Vec<Vec<Vec<u8>>>, parity_out: &mut Vec<Vec<Vec<u8>>>) -> (r:
        Result<(), CodecError>)
        requires
            old(parity_out)@.len() >= data_stripes@.len(),
        ensures
            final(parity_out)@.len() == old(parity_out)@.len(),
            match r {
                Ok(_) => {
                    &&& forall|i: int|
                        0 <= i < data_stripes@.len() ==> (#[trigger] self.refusal(
                            shard_views(data_stripes@[i]@),
                            shard_views(old(parity_out)@[i]@),
                        )) is None
                    &&& encoded_upto(
                        self.data_shards(),
                        self.parity_shards(),
                        data_stripes@,
                        old(parity_out)@,
                        final(parity_out)@,
                        data_stripes@.len() as int,
                    )
                },
                Err(e) => exists|at: int|
                    {
                        &&& 0 <= at < data_stripes@.len()
                        &&& (#[trigger] self.refusal(
                            shard_views(data_stripes@[at]@),
                            shard_views(old(parity_out)@[at]@),
                        )) == Some(e)
                        &&& forall|i: int|
                            0 <= i < at ==> (#[trigger] self.refusal(
                                shard_views(data_stripes@[i]@),
                                shard_views(old(parity_out)@[i]@),
                            )) is None
                        &&& encoded_upto(
                            self.data_shards(),
                            self.parity_shards(),
                            data_stripes@,
                            old(parity_out)@,
                            final(parity_out)@,
                            at,
                        )
                    },
            },
    {
        let mut i: usize = 0;
        while i < data_stripes.len()
            invariant
                i <= data_stripes.len(),
                parity_out@.len() >= data_stripes@.len(),
                parity_out@.len() == old(parity_out)@.len(),
                forall|j: int|
                    0 <= j < i ==> (#[trigger] self.refusal(
                        shard_views(data_stripes@[j]@),
                        shard_views(old(parity_out)@[j]@),
                    )) is None,
                forall|j: int|
                    0 <= j < i ==> shard_views((#[trigger] parity_out@[j])@) == rs_parity(
                        self.data_shards(),
                        self.parity_shards(),
                        shard_views(data_stripes@[j]@),
                    ),
                forall|j: int|
                    i <= j < parity_out@.len()
                        ==> (#[trigger] parity_out@[j])@ == old(parity_out)@[j]@,
            decreases data_stripes.len() - i,
        {
            let mut slot: Vec<Vec<u8>> = Vec::new();
            let ghost before = parity_out@;
            std::mem::swap(&mut slot, &mut parity_out[i]);
            assert(slot@ == old(parity_out)@[i as int]@);
            let res = self.encode_stripe(&data_stripes[i], &mut slot);
            std::mem::swap(&mut slot, &mut parity_out[i]);
            match res {
                Err(e) => {
                    proof {
                        assert(parity_out@[i as int]@ == before[i as int]@);
                        assert(self.refusal(
                            shard_views(data_stripes@[i as int]@),
                            shard_views(old(parity_out)@[i as int]@),
                        ) == Some(e));
                        assert(encoded_upto(
                            self.data_shards(),
                            self.parity_shards(),
                            data_stripes@,
                            old(parity_out)@,
                            parity_out@,
                            i as int,
                        ));
                    }
                    return Err(e);
                },
                Ok(_) => {},
            }
            i += 1;
        }
        Ok(())
    }
}

/// The backend that runs the Reed-Solomon codec on the processor.
#[derive(Clone, Copy, Debug, PartialEq, Eq, Structural)]
pub struct CpuBackend {
    k: usize,
    m: usize,
}

impl CpuBackend {
    /// Number of data shards per stripe.
    pub closed spec fn k(&self) -> int {
        self.k as int
    }

    /// Number of parity shards per stripe.
    pub closed spec fn m(&self) -> int {
        self.m as int
    }

    /// A backend for K data and M parity shards. The parameters are checked
    /// when a stripe is encoded.
    pub fn new(k: usize, m: usize) -> (r: Result<CpuBackend, CodecError>)
        ensures
            r matches Ok(b) && b.k() == k && b.m() == m,
    {
        Ok(CpuBackend { k, m })
    }
}

/// What the processor backend answers on the given shards: the first check
/// that fails, in the order parameters, number of shards, sizes.
pub open spec fn stripe_error(k: int, m: int, data: Seq<Seq<u8>>, parity: Seq<Seq<u8>>) -> Option<
    CodecError,
> {
    if !valid_params(k, m) {
        Some(CodecError::BadParams)
    } else if data.len() != k || parity.len() != m {
        Some(CodecError::ShardCount)
    } else if !uniform(data + parity) {
        Some(CodecError::BadShardSize)
    } else {
        None
    }
}

fn copy_shards(src: &Vec<Vec<u8>>, dst: &mut Vec<Vec<u8>>)
    ensures
        final(dst)@.len() == old(dst)@.len() + src@.len(),
        shard_views(final(dst)@) == shard_views(old(dst)@) + shard_views(src@),
{
    let ghost start = dst@;
    let mut i: usize = 0;
    while i < src.len()
        invariant
            i <= src.len(),
            dst@.len() == start.len() + i,
            shard_views(dst@) == shard_views(start) + shard_views(src@).take(i as int),
        decreases src.len() - i,
    {
        let ghost before = dst@;
        let c = src[i].clone();
        assert(c@ == src@[i as int]@);
        dst.push(c);
        proof {
            let want = shard_views(start) + shard_views(src@).take(i + 1);
            assert(shard_views(dst@).len() == want.len());
            assert forall|j: int| 0 <= j < want.len() implies shard_views(dst@)[j] == want[j] by {
                if j < before.len() {
                    assert(dst@[j] == before[j]);
                    assert(shard_views(before)[j] == before[j]@);
                }
            }
            assert(shard_views(dst@) =~= want);
        }
        i += 1;
    }
    assert(shard_views(src@).take(i as int) =~= shard_views(src@));
}

impl ComputeBackend for CpuBackend {
    open spec fn data_shards(&self) -> int {
        self.k()
    }

    open spec fn parity_shards(&self) -> int {
        self.m()
    }

    open spec fn refusal(&self, data: Seq<Seq<u8>>, parity: Seq<Seq<u8>>) -> Option<CodecError> {
        stripe_error(self.k(), self.m(), data, parity)
    }

    fn encode_stripe(&self, data_shards: &Vec<Vec<u8>>, parity_out: &mut Vec<Vec<u8>>) -> (r: Result<
        (),
        CodecError,
    >) {
        let rs = match RsCodec::new(self.k, self.m) {
            Ok(rs) => rs,
            Err(e) => {
                return Err(e);
            },
        };
        if data_shards.len() != self.k || parity_out.len() != self.m {
            return Err(CodecError::ShardCount);
        }
        let mut shards: Vec<Vec<u8>> = Vec::new();
        copy_shards(data_shards, &mut shards);
        copy_shards(parity_out, &mut shards);
        let ghost all = shard_views(data_shards@) + shard_views(parity_out@);
        proof {
            assert(shard_views(Seq::<Vec<u8>>::empty()) =~= Seq::<Seq<u8>>::empty());
            assert(shard_views(shards@) =~= all);
            assert(shard_views(data_shards@ + parity_out@) =~= all);
        }
        match rs.encode(&mut shards) {
            Err(e) => {
                return Err(e);
            },
            Ok(_) => {},
        }
        let ghost encoded = shards@;
        let parity = shards.split_off(self.k);
        proof {
            let k = self.k as int;
            let m = self.m as int;
            assert(all.subrange(0, k) =~= shard_views(data_shards@));
            assert(shard_views(encoded).subrange(0, k) =~= shard_views(data_shards@)) by {
                assert forall|i: int| 0 <= i < k implies shard_views(encoded).subrange(0, k)[i]
                    == shard_views(data_shards@)[i] by {
                    assert(encoded[i]@ == all[i]);
                }
            }
            assert(shard_views(parity@) =~= shard_views(encoded).subrange(k, k + m));
            assert(shard_views(data_shards@ + parity@) =~= shard_views(encoded)) by {
                assert forall|i: int| 0 <= i < k + m implies shard_views(
                    data_shards@ + parity@,
                )[i] == shard_views(encoded)[i] by {
                    if i < k {
                        assert(shard_views(encoded).subrange(0, k)[i] == shard_views(
                            data_shards@,
                        )[i]);
                    } else {
                        assert(parity@[i - k] == encoded[i]);
                    }
                }
            }
        }
        *parity_out = parity;
        Ok(())
    }
}

} // verus!
