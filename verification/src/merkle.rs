//! Binary Merkle root over chunk digests.

use crate::hash::{blake3_digest, blake3_hash, digests, extend_bytes, Digest};
use vstd::prelude::*;
use vstd::slice::slice_to_vec;

verus! {

/// The parent of two nodes: the digest of the left node followed by the right.
pub open spec fn merkle_node(left: Seq<u8>, right: Seq<u8>) -> Seq<u8> {
    blake3_digest(left + right)
}

/// The layer above `layer`: nodes are paired left to right, and the last node
/// of an odd layer is paired with itself.
pub open spec fn merkle_parent_layer(layer: Seq<Seq<u8>>) -> Seq<Seq<u8>> {
    Seq::new(
        ((layer.len() + 1) / 2) as nat,
        |i: int|
            merkle_node(
                layer[2 * i],
                if 2 * i + 1 < layer.len() {
                    layer[2 * i + 1]
                } else {
                    layer[2 * i]
                },
            ),
    )
}

/// The Merkle root of a list of leaves. With no leaf it is the digest of the
/// empty string; with one leaf it is that leaf.
pub open spec fn merkle_root(leaves: Seq<Seq<u8>>) -> Seq<u8>
    decreases leaves.len(),
{
    if leaves.len() == 0 {
        blake3_digest(Seq::empty())
    } else if leaves.len() == 1 {
        leaves[0]
    } else {
        merkle_root(merkle_parent_layer(leaves))
    }
}

fn parent_layer(layer: &Vec<Digest>) -> (next: Vec<Digest>)
    ensures
        digests(next@) == merkle_parent_layer(digests(layer@)),
{
    let n: usize = layer.len();
    let pairs: usize = n / 2 + n % 2;
    let mut next: Vec<Digest> = Vec::new();
    let mut p: usize = 0;
    while p < pairs
        invariant
            p <= pairs,
            n == layer.len(),
            pairs == (n + 1) / 2,
            next.len() == p,
            forall|j: int|
                0 <= j < p ==> (#[trigger] next@[j])@ == merkle_parent_layer(digests(layer@))[j],
        decreases pairs - p,
    {
        let left: Digest = layer[2 * p];
        let right: Digest = if 2 * p + 1 < n {
            layer[2 * p + 1]
        } else {
            layer[2 * p]
        };
        let mut cat: Vec<u8> = Vec::new();
        extend_bytes(&mut cat, left.as_slice());
        extend_bytes(&mut cat, right.as_slice());
        let h = blake3_hash(cat.as_slice());
        proof {
            assert(cat@ =~= left@ + right@);
            assert(digests(layer@)[2 * p] == left@);
        }
        next.push(h);
        p += 1;
    }
    assert(digests(next@) =~= merkle_parent_layer(digests(layer@)));
    next
}

/// The Merkle root of `hashes`, in the order given.
pub fn root(hashes: &[Digest]) -> (r: Digest)
    ensures
        r@ == merkle_root(digests(hashes@)),
{
    if hashes.len() == 0 {
        let empty: Vec<u8> = Vec::new();
        assert(digests(hashes@).len() == 0);
        return blake3_hash(empty.as_slice());
    }
    let mut layer: Vec<Digest> = slice_to_vec(hashes);
    while layer.len() > 1
        invariant
            layer.len() >= 1,
            merkle_root(digests(layer@)) == merkle_root(digests(hashes@)),
        decreases layer.len(),
    {
        let next = parent_layer(&layer);
        proof {
            assert(digests(layer@).len() == layer.len());
            assert(digests(next@).len() == (layer.len() + 1) / 2);
        }
        layer = next;
    }
    assert(digests(layer@)[0] == layer@[0]@);
    layer[0]
}

} // verus!
