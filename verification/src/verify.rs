//! The verifier: recomputes the digest of every chunk from the present
//! contents of the files and compares it with the manifest, then does the
//! same for the Merkle root.

use crate::hash::{chunk_digest, digests, hash_chunk, Digest};
use crate::manifest::{ChunkRef, FileEntry, Manifest};
use crate::merkle::{merkle_root, root};
use crate::path_safety::{
    check_relative, decide_links, lexical_error, path_error, LinkFacts, PathError, PathPolicy,
};
use crate::text::{hex, hex_of};
use vstd::prelude::*;
use vstd::slice::slice_subrange;
use vstd::utf8::encode_utf8;

verus! {

/// What the verifier found.
#[derive(Clone, Copy, Debug, PartialEq, Eq, Structural)]
pub struct VerifyReport {
    pub chunks_ok: u64,
    pub chunks_bad: u64,
    pub merkle_ok: bool,
}

/// Why the files cannot be verified against the manifest.
#[derive(Clone, Copy, Debug, PartialEq, Eq, Structural)]
pub enum VerifyError {
    /// The contents given are not one per file of the manifest.
    FileCount,
    /// A recorded path is absolute or leaves the root.
    UnsafePath(PathError),
    /// The global indices of the manifest are not the numbers from 0 up to
    /// the total number of chunks, each once.
    BadManifest,
}

/// The present contents of the files of a manifest, nothing for a file that
/// is missing or cannot be read.
pub open spec fn content_views(files: Seq<Option<Vec<u8>>>) -> Seq<Option<Seq<u8>>> {
    Seq::new(
        files.len(),
        |i: int|
            match files[i] {
                Some(d) => Some(d@),
                None => None,
            },
    )
}

/// The bytes of a file that a chunk reference points at, where the file is
/// there and long enough.
pub open spec fn window(file: Option<Seq<u8>>, c: ChunkRef) -> Option<Seq<u8>> {
    match file {
        None => None,
        Some(d) => if c.file_offset + c.len <= d.len() {
            Some(d.subrange(c.file_offset as int, c.file_offset + c.len))
        } else {
            None
        },
    }
}

/// The digest that the verifier computes for a chunk: that of the bytes the
/// reference points at, zero-padded to the chunk size, and that of an empty
/// chunk where these bytes cannot be had.
pub open spec fn observed_digest(file: Option<Seq<u8>>, c: ChunkRef, chunk_size: nat) -> Seq<u8> {
    match window(file, c) {
        Some(b) => chunk_digest(b, chunk_size),
        None => chunk_digest(Seq::empty(), chunk_size),
    }
}

/// A chunk is intact where the file is there and long enough, the chunk is no
/// longer than the chunk size, and the digest of its zero-padded bytes is the
/// recorded one. Any other chunk is damaged.
pub open spec fn chunk_intact(file: Option<Seq<u8>>, c: ChunkRef, chunk_size: nat) -> bool {
    &&& c.len <= chunk_size
    &&& window(file, c) is Some
    &&& hex_of(observed_digest(file, c, chunk_size)) == c.hash_hex@
}

/// Number of intact chunks among the given chunks of a file.
pub open spec fn intact_in_file(file: Option<Seq<u8>>, chunks: Seq<ChunkRef>, chunk_size: nat) -> nat
    decreases chunks.len(),
{
    if chunks.len() == 0 {
        0
    } else {
        intact_in_file(file, chunks.drop_last(), chunk_size) + if chunk_intact(
            file,
            chunks.last(),
            chunk_size,
        ) {
            1nat
        } else {
            0nat
        }
    }
}

/// Number of intact chunks of the first `n` files.
pub open spec fn intact_count(
    files: Seq<Option<Seq<u8>>>,
    entries: Seq<FileEntry>,
    chunk_size: nat,
    n: int,
) -> nat
    decreases n,
{
    if n <= 0 {
        0
    } else {
        intact_count(files, entries, chunk_size, n - 1) + intact_in_file(
            files[n - 1],
            entries[n - 1].chunks@,
            chunk_size,
        )
    }
}

/// Number of chunk references of the first `n` files.
pub open spec fn ref_count(entries: Seq<FileEntry>, n: int) -> nat
    decreases n,
{
    if n <= 0 {
        0
    } else {
        ref_count(entries, n - 1) + entries[n - 1].chunks@.len()
    }
}

/// `(fi, ci)` names a chunk reference of the manifest.
pub open spec fn valid_ref(mf: Manifest, fi: int, ci: int) -> bool {
    0 <= fi < mf.files@.len() && 0 <= ci < mf.files@[fi].chunks@.len()
}

/// The global index that the manifest gives a chunk.
pub open spec fn idx_of(mf: Manifest, fi: int, ci: int) -> int {
    mf.files@[fi].chunks@[ci].idx as int
}

/// The chunk references of the manifest that come before `(fi, ci)`.
pub open spec fn ref_before(mf: Manifest, a: int, b: int, fi: int, ci: int) -> bool {
    valid_ref(mf, a, b) && (a < fi || (a == fi && b < ci))
}

/// Some chunk reference of the manifest has the global index `g`.
pub open spec fn indexed(mf: Manifest, g: int) -> bool {
    exists|fi: int, ci: int| valid_ref(mf, fi, ci) && #[trigger] idx_of(mf, fi, ci) == g
}

/// The global indices of the manifest are the numbers from 0 up to the total
/// number of chunks, each once: there are as many references as chunks, no
/// more than the machine can count, every index is below the total, no two
/// references share one, and none is missing.
pub open spec fn well_indexed(mf: Manifest) -> bool {
    &&& mf.total_chunks <= usize::MAX
    &&& ref_count(mf.files@, mf.files@.len() as int) == mf.total_chunks
    &&& forall|fi: int, ci: int|
        valid_ref(mf, fi, ci) ==> 0 <= #[trigger] idx_of(mf, fi, ci) < mf.total_chunks
    &&& forall|fi: int, ci: int, fj: int, cj: int|
        valid_ref(mf, fi, ci) && valid_ref(mf, fj, cj) && #[trigger] idx_of(mf, fi, ci)
            == #[trigger] idx_of(mf, fj, cj) ==> fi == fj && ci == cj
    &&& forall|g: int| 0 <= g < mf.total_chunks ==> #[trigger] indexed(mf, g)
}

/// The chunk reference with global index `g`.
pub open spec fn ref_at(mf: Manifest, g: int) -> (int, int) {
    choose|r: (int, int)| valid_ref(mf, r.0, r.1) && idx_of(mf, r.0, r.1) == g
}

/// The digests that the verifier computes, in global order.
pub open spec fn observed_leaves(mf: Manifest, files: Seq<Option<Seq<u8>>>) -> Seq<Seq<u8>> {
    Seq::new(
        mf.total_chunks as nat,
        |g: int|
            {
                let r = ref_at(mf, g);
                observed_digest(
                    files[r.0],
                    mf.files@[r.0].chunks@[r.1],
                    mf.chunk_size as nat,
                )
            },
    )
}

/// Some file before `n` has a recorded path that may not be joined to a root.
pub open spec fn first_unsafe(mf: Manifest, n: int) -> Option<PathError>
    decreases n,
{
    if n <= 0 {
        None
    } else {
        match first_unsafe(mf, n - 1) {
            Some(e) => Some(e),
            None => lexical_error(encode_utf8(mf.files@[n - 1].rel_path@)),
        }
    }
}

/// Why verifying fails, if it does: the contents are not one per file, or,
/// for the first file that has one, an unsafe path, or a manifest whose
/// indices are not in order.
pub open spec fn verify_error(mf: Manifest, files: Seq<Option<Seq<u8>>>) -> Option<VerifyError> {
    if files.len() != mf.files@.len() {
        Some(VerifyError::FileCount)
    } else {
        match first_unsafe(mf, mf.files@.len() as int) {
            Some(e) => Some(VerifyError::UnsafePath(e)),
            None => if !well_indexed(mf) {
                Some(VerifyError::BadManifest)
            } else {
                None
            },
        }
    }
}

/// Whether a digest is the one that a manifest records as lowercase hex.
pub fn digest_is(digest: &Digest, recorded_hex: &String) -> (same: bool)
    ensures
        same == (hex_of(digest@) == recorded_hex@),
{
    let text = hex(digest.as_slice());
    text == *recorded_hex
}

/// Looks at one chunk: whether it is intact, and the digest computed for it.
pub fn check_chunk(file: Option<&[u8]>, c: &ChunkRef, chunk_size: usize) -> (r: (bool, Digest))
    ensures
        r.0 == chunk_intact(
            match file {
                Some(d) => Some(d@),
                None => None,
            },
            *c,
            chunk_size as nat,
        ),
        r.1@ == observed_digest(
            match file {
                Some(d) => Some(d@),
                None => None,
            },
            *c,
            chunk_size as nat,
        ),
{
    let empty: Vec<u8> = Vec::new();
    match file {
        None => {
            assert(empty@ =~= Seq::<u8>::empty());
            (false, hash_chunk(empty.as_slice(), chunk_size))
        },
        Some(d) => {
            let flen: u64 = d.len() as u64;
            if c.file_offset > flen || flen - c.file_offset < c.len as u64 {
                assert(empty@ =~= Seq::<u8>::empty());
                (false, hash_chunk(empty.as_slice(), chunk_size))
            } else {
                let start: usize = c.file_offset as usize;
                let bytes = slice_subrange(d, start, start + c.len as usize);
                let digest = hash_chunk(bytes, chunk_size);
                let same = digest_is(&digest, &c.hash_hex);
                (c.len as u64 <= chunk_size as u64 && same, digest)
            }
        },
    }
}

fn check_file(file: Option<&[u8]>, chunks: &Vec<ChunkRef>, chunk_size: usize) -> (r: (
    usize,
    Vec<Digest>,
))
    ensures
        r.0 == intact_in_file(
            match file {
                Some(d) => Some(d@),
                None => None,
            },
            chunks@,
            chunk_size as nat,
        ),
        r.0 <= chunks@.len(),
        r.1@.len() == chunks@.len(),
        forall|ci: int|
            0 <= ci < chunks@.len() ==> (#[trigger] r.1@[ci])@ == observed_digest(
                match file {
                    Some(d) => Some(d@),
                    None => None,
                },
                chunks@[ci],
                chunk_size as nat,
            ),
{
    let ghost fv = match file {
        Some(d) => Some(d@),
        None => None,
    };
    let mut ok: usize = 0;
    let mut seen: Vec<Digest> = Vec::new();
    let mut ci: usize = 0;
    while ci < chunks.len()
        invariant
            ci <= chunks.len(),
            fv == (match file {
                Some(d) => Some(d@),
                None => None,
            }),
            ok == intact_in_file(fv, chunks@.take(ci as int), chunk_size as nat),
            ok <= ci,
            seen@.len() == ci,
            forall|j: int|
                0 <= j < ci ==> (#[trigger] seen@[j])@ == observed_digest(
                    fv,
                    chunks@[j],
                    chunk_size as nat,
                ),
        decreases chunks.len() - ci,
    {
        let (intact, digest) = check_chunk(file, &chunks[ci], chunk_size);
        proof {
            assert(chunks@.take(ci + 1).drop_last() =~= chunks@.take(ci as int));
            assert(chunks@.take(ci + 1).last() == chunks@[ci as int]);
        }
        if intact {
            ok += 1;
        }
        seen.push(digest);
        ci += 1;
    }
    assert(chunks@.take(ci as int) =~= chunks@);
    (ok, seen)
}

/// The first recorded path that may not be joined to a root, if there is one.
pub(crate) fn check_paths(mf: &Manifest) -> (r: Option<PathError>)
    ensures
        r == first_unsafe(*mf, mf.files@.len() as int),
{
    let mut fi: usize = 0;
    while fi < mf.files.len()
        invariant
            fi <= mf.files.len(),
            first_unsafe(*mf, fi as int) is None,
        decreases mf.files.len() - fi,
    {
        match check_relative(mf.files[fi].rel_path.as_str().as_bytes()) {
            Err(e) => {
                proof {
                    lemma_first_unsafe_stays(*mf, fi + 1, mf.files@.len() as int);
                }
                return Some(e);
            },
            Ok(_) => {},
        }
        fi += 1;
    }
    None
}

proof fn lemma_first_unsafe_stays(mf: Manifest, n: int, end: int)
    requires
        0 <= n <= end,
        first_unsafe(mf, n) is Some,
    ensures
        first_unsafe(mf, end) == first_unsafe(mf, n),
    decreases end - n,
{
    if n < end {
        lemma_first_unsafe_stays(mf, n, end - 1);
    }
}

proof fn lemma_ref_count_mono(entries: Seq<FileEntry>, n: int, end: int)
    requires
        0 <= n <= end,
    ensures
        ref_count(entries, n) <= ref_count(entries, end),
    decreases end - n,
{
    if n < end {
        lemma_ref_count_mono(entries, n, end - 1);
    }
}

proof fn lemma_intact_bounds(file: Option<Seq<u8>>, chunks: Seq<ChunkRef>, chunk_size: nat)
    ensures
        intact_in_file(file, chunks, chunk_size) <= chunks.len(),
    decreases chunks.len(),
{
    if chunks.len() > 0 {
        lemma_intact_bounds(file, chunks.drop_last(), chunk_size);
    }
}

proof fn lemma_intact_count_bounds(
    files: Seq<Option<Seq<u8>>>,
    entries: Seq<FileEntry>,
    chunk_size: nat,
    n: int,
)
    ensures
        intact_count(files, entries, chunk_size, n) <= ref_count(entries, n),
    decreases n,
{
    if n > 0 {
        lemma_intact_count_bounds(files, entries, chunk_size, n - 1);
        lemma_intact_bounds(files[n - 1], entries[n - 1].chunks@, chunk_size);
    }
}

/// The number of chunk references of the manifest, or nothing where they are
/// more than `u64::MAX`.
pub(crate) fn count_refs(mf: &Manifest) -> (r: Option<u64>)
    ensures
        match r {
            Some(n) => n == ref_count(mf.files@, mf.files@.len() as int),
            None => ref_count(mf.files@, mf.files@.len() as int) > u64::MAX,
        },
{
    let mut refs: u64 = 0;
    let mut fi: usize = 0;
    while fi < mf.files.len()
        invariant
            fi <= mf.files.len(),
            refs == ref_count(mf.files@, fi as int),
        decreases mf.files.len() - fi,
    {
        let n: u64 = mf.files[fi].chunks.len() as u64;
        if n > u64::MAX - refs {
            proof {
                lemma_ref_count_mono(mf.files@, fi + 1, mf.files@.len() as int);
            }
            return None;
        }
        refs = refs + n;
        fi += 1;
    }
    Some(refs)
}

/// The digests computed for the chunks of every file, in the shape of the
/// manifest.
pub open spec fn seen_of(seen: Seq<Vec<Digest>>, mf: Manifest, files: Seq<Option<Seq<u8>>>) -> bool {
    &&& seen.len() == mf.files@.len()
    &&& forall|fi: int|
        0 <= fi < seen.len() ==> (#[trigger] seen[fi])@.len() == mf.files@[fi].chunks@.len()
    &&& forall|fi: int, ci: int|
        valid_ref(mf, fi, ci) ==> (#[trigger] seen[fi]@[ci])@ == observed_digest(
            files[fi],
            mf.files@[fi].chunks@[ci],
            mf.chunk_size as nat,
        )
}

fn file_slice(file: &Option<Vec<u8>>) -> (r: Option<&[u8]>)
    ensures
        match r {
            Some(d) => file matches Some(v) && v@ == d@,
            None => file is None,
        },
{
    match file {
        Some(v) => Some(v.as_slice()),
        None => None,
    }
}

fn scan_files(mf: &Manifest, files: &Vec<Option<Vec<u8>>>) -> (r: Option<
    (u64, u64, Vec<Vec<Digest>>),
>)
    requires
        files@.len() == mf.files@.len(),
    ensures
        match r {
            Some((ok, refs, seen)) => {
                &&& ok == intact_count(
                    content_views(files@),
                    mf.files@,
                    mf.chunk_size as nat,
                    mf.files@.len() as int,
                )
                &&& refs == ref_count(mf.files@, mf.files@.len() as int)
                &&& seen_of(seen@, *mf, content_views(files@))
            },
            None => ref_count(mf.files@, mf.files@.len() as int) > u64::MAX,
        },
{
    let ghost cv = content_views(files@);
    let ghost cs = mf.chunk_size as nat;
    let mut ok: u64 = 0;
    let mut refs: u64 = 0;
    let mut seen: Vec<Vec<Digest>> = Vec::new();
    let mut fi: usize = 0;
    while fi < mf.files.len()
        invariant
            fi <= mf.files.len(),
            files@.len() == mf.files@.len(),
            cv == content_views(files@),
            cs == mf.chunk_size as nat,
            ok == intact_count(cv, mf.files@, cs, fi as int),
            refs == ref_count(mf.files@, fi as int),
            ok <= refs,
            seen@.len() == fi,
            forall|j: int|
                0 <= j < fi ==> (#[trigger] seen@[j])@.len() == mf.files@[j].chunks@.len(),
            forall|j: int, ci: int|
                0 <= j < fi && 0 <= ci < mf.files@[j].chunks@.len() ==> (
                #[trigger] seen@[j]@[ci])@ == observed_digest(
                    cv[j],
                    mf.files@[j].chunks@[ci],
                    cs,
                ),
        decreases mf.files.len() - fi,
    {
        let file = file_slice(&files[fi]);
        let chunks = &mf.files[fi].chunks;
        let (good, digests) = check_file(file, chunks, mf.chunk_size);
        proof {
            assert(cv[fi as int] == match file {
                Some(d) => Some(d@),
                None => None,
            });
        }
        let n: u64 = chunks.len() as u64;
        if n > u64::MAX - refs {
            proof {
                lemma_ref_count_mono(mf.files@, fi + 1, mf.files@.len() as int);
            }
            return None;
        }
        refs = refs + n;
        ok = ok + good as u64;
        seen.push(digests);
        fi += 1;
    }
    Some((ok, refs, seen))
}

/// What the table of references holds while the references before `(fi, ci)`
/// were read: every such reference has an index below the total and stands
/// in the slot of its index; no other slot is filled.
pub open spec fn slots_ok(mf: Manifest, slots: Seq<Option<(usize, usize)>>, fi: int, ci: int) -> bool {
    &&& slots.len() == mf.total_chunks
    &&& forall|g: int|
        0 <= g < slots.len() && (#[trigger] slots[g]) is Some ==> {
            let r = slots[g]->0;
            &&& ref_before(mf, r.0 as int, r.1 as int, fi, ci)
            &&& idx_of(mf, r.0 as int, r.1 as int) == g
        }
    &&& forall|a: int, b: int| #[trigger]
        ref_before(mf, a, b, fi, ci) ==> 0 <= idx_of(mf, a, b) < mf.total_chunks && slots[idx_of(
            mf,
            a,
            b,
        )] == Some((a as usize, b as usize))
}

/// The last three conditions of a well-indexed manifest.
pub open spec fn indices_ok(mf: Manifest) -> bool {
    &&& forall|fi: int, ci: int|
        valid_ref(mf, fi, ci) ==> 0 <= #[trigger] idx_of(mf, fi, ci) < mf.total_chunks
    &&& forall|fi: int, ci: int, fj: int, cj: int|
        valid_ref(mf, fi, ci) && valid_ref(mf, fj, cj) && #[trigger] idx_of(mf, fi, ci)
            == #[trigger] idx_of(mf, fj, cj) ==> fi == fj && ci == cj
    &&& forall|g: int| 0 <= g < mf.total_chunks ==> #[trigger] indexed(mf, g)
}

/// Entry `g` of the table is the chunk reference with global index `g`.
pub open spec fn refs_of(refs: Seq<(usize, usize)>, mf: Manifest) -> bool {
    &&& refs.len() == mf.total_chunks
    &&& forall|g: int|
        0 <= g < refs.len() ==> {
            let r = #[trigger] refs[g];
            &&& valid_ref(mf, r.0 as int, r.1 as int)
            &&& idx_of(mf, r.0 as int, r.1 as int) == g
            &&& ref_at(mf, g) == (r.0 as int, r.1 as int)
        }
}

fn empty_slots(n: usize) -> (slots: Vec<Option<(usize, usize)>>)
    ensures
        slots@.len() == n,
        forall|g: int| 0 <= g < n ==> (#[trigger] slots@[g]) is None,
{
    let mut slots: Vec<Option<(usize, usize)>> = Vec::new();
    let mut g: usize = 0;
    while g < n
        invariant
            g <= n,
            slots@.len() == g,
            forall|h: int| 0 <= h < g ==> (#[trigger] slots@[h]) is None,
        decreases n - g,
    {
        slots.push(None);
        g += 1;
    }
    slots
}

fn fill_slots(mf: &Manifest) -> (r: Option<Vec<Option<(usize, usize)>>>)
    requires
        mf.total_chunks <= usize::MAX,
    ensures
        match r {
            Some(slots) => slots_ok(*mf, slots@, mf.files@.len() as int, 0),
            None => !indices_ok(*mf),
        },
{
    let total: usize = mf.total_chunks as usize;
    let mut slots = empty_slots(total);
    let mut fi: usize = 0;
    while fi < mf.files.len()
        invariant
            fi <= mf.files.len(),
            total == mf.total_chunks,
            slots_ok(*mf, slots@, fi as int, 0),
        decreases mf.files.len() - fi,
    {
        let chunks = &mf.files[fi].chunks;
        let mut ci: usize = 0;
        while ci < chunks.len()
            invariant
                ci <= chunks.len(),
                fi < mf.files.len(),
                chunks == &mf.files@[fi as int].chunks,
                total == mf.total_chunks,
                slots_ok(*mf, slots@, fi as int, ci as int),
            decreases chunks.len() - ci,
        {
            let idx: u64 = chunks[ci].idx;
            assert(valid_ref(*mf, fi as int, ci as int));
            assert(idx == idx_of(*mf, fi as int, ci as int));
            if idx >= total as u64 {
                return None;
            }
            let g: usize = idx as usize;
            if slots[g].is_some() {
                proof {
                    let r = slots@[g as int]->0;
                    assert(ref_before(*mf, r.0 as int, r.1 as int, fi as int, ci as int));
                    assert(idx_of(*mf, r.0 as int, r.1 as int) == idx_of(
                        *mf,
                        fi as int,
                        ci as int,
                    ));
                }
                return None;
            }
            let ghost old_slots = slots@;
            slots[g] = Some((fi, ci));
            proof {
                assert forall|a: int, b: int| #[trigger]
                    ref_before(*mf, a, b, fi as int, ci + 1) implies 0 <= idx_of(*mf, a, b)
                    < mf.total_chunks && slots@[idx_of(*mf, a, b)] == Some(
                    (a as usize, b as usize),
                ) by {
                    if a == fi && b == ci {
                    } else {
                        assert(ref_before(*mf, a, b, fi as int, ci as int));
                        assert(old_slots[idx_of(*mf, a, b)] == Some((a as usize, b as usize)));
                        assert(idx_of(*mf, a, b) != g);
                    }
                }
                assert forall|h: int| 0 <= h < slots@.len() && (#[trigger] slots@[h]) is Some implies {
                    let r = slots@[h]->0;
                    &&& ref_before(*mf, r.0 as int, r.1 as int, fi as int, ci + 1)
                    &&& idx_of(*mf, r.0 as int, r.1 as int) == h
                } by {
                    if h != g {
                        assert(old_slots[h] is Some);
                        let r = old_slots[h]->0;
                        assert(ref_before(*mf, r.0 as int, r.1 as int, fi as int, ci as int));
                    }
                }
            }
            ci += 1;
        }
        proof {
            assert forall|a: int, b: int| #[trigger]
                ref_before(*mf, a, b, fi + 1, 0) implies 0 <= idx_of(*mf, a, b) < mf.total_chunks
                && slots@[idx_of(*mf, a, b)] == Some((a as usize, b as usize)) by {
                assert(ref_before(*mf, a, b, fi as int, ci as int));
            }
            assert forall|h: int| 0 <= h < slots@.len() && (#[trigger] slots@[h]) is Some implies {
                let r = slots@[h]->0;
                &&& ref_before(*mf, r.0 as int, r.1 as int, fi + 1, 0)
                &&& idx_of(*mf, r.0 as int, r.1 as int) == h
            } by {
                let r = slots@[h]->0;
                assert(ref_before(*mf, r.0 as int, r.1 as int, fi as int, ci as int));
            }
        }
        fi += 1;
    }
    Some(slots)
}

/// The table of chunk references by global index, for a manifest whose
/// indices are the numbers from 0 up to the total, each once; nothing for any
/// other manifest.
pub(crate) fn index_refs(mf: &Manifest) -> (r: Option<Vec<(usize, usize)>>)
    requires
        mf.total_chunks <= usize::MAX,
    ensures
        match r {
            Some(refs) => indices_ok(*mf) && refs_of(refs@, *mf),
            None => !indices_ok(*mf),
        },
{
    let slots = match fill_slots(mf) {
        None => {
            return None;
        },
        Some(x) => x,
    };
    let ghost n_files = mf.files@.len() as int;
    let mut refs: Vec<(usize, usize)> = Vec::new();
    let mut g: usize = 0;
    while g < slots.len()
        invariant
            g <= slots.len(),
            n_files == mf.files@.len(),
            slots_ok(*mf, slots@, n_files, 0),
            refs@.len() == g,
            forall|h: int| 0 <= h < g ==> (#[trigger] slots@[h]) == Some(refs@[h]),
        decreases slots.len() - g,
    {
        match slots[g] {
            None => {
                proof {
                    if indexed(*mf, g as int) {
                        let (a, b) = choose|a: int, b: int|
                            valid_ref(*mf, a, b) && #[trigger] idx_of(*mf, a, b) == g;
                        assert(ref_before(*mf, a, b, n_files, 0));
                    }
                }
                return None;
            },
            Some(r) => {
                refs.push(r);
            },
        }
        g += 1;
    }
    proof {
        assert forall|fi: int, ci: int| valid_ref(*mf, fi, ci) implies 0 <= #[trigger] idx_of(
            *mf,
            fi,
            ci,
        ) < mf.total_chunks by {
            assert(ref_before(*mf, fi, ci, n_files, 0));
        }
        assert forall|fi: int, ci: int, fj: int, cj: int|
            valid_ref(*mf, fi, ci) && valid_ref(*mf, fj, cj) && #[trigger] idx_of(*mf, fi, ci)
                == #[trigger] idx_of(*mf, fj, cj) implies fi == fj && ci == cj by {
            assert(ref_before(*mf, fi, ci, n_files, 0));
            assert(ref_before(*mf, fj, cj, n_files, 0));
            assert(mf.files.len() == mf.files@.len());
            assert(mf.files@[fi].chunks.len() == mf.files@[fi].chunks@.len());
            assert(mf.files@[fj].chunks.len() == mf.files@[fj].chunks@.len());
            assert((fi as usize, ci as usize) == (fj as usize, cj as usize));
        }
        assert forall|h: int| 0 <= h < mf.total_chunks implies #[trigger] indexed(*mf, h) by {
            assert(slots@[h] is Some);
            let r = slots@[h]->0;
            assert(ref_before(*mf, r.0 as int, r.1 as int, n_files, 0));
            assert(valid_ref(*mf, r.0 as int, r.1 as int) && idx_of(*mf, r.0 as int, r.1 as int)
                == h);
        }
        assert forall|h: int| 0 <= h < refs@.len() implies {
            let r = #[trigger] refs@[h];
            &&& valid_ref(*mf, r.0 as int, r.1 as int)
            &&& idx_of(*mf, r.0 as int, r.1 as int) == h
            &&& ref_at(*mf, h) == (r.0 as int, r.1 as int)
        } by {
            assert(slots@[h] is Some);
            let r = slots@[h]->0;
            assert(ref_before(*mf, r.0 as int, r.1 as int, n_files, 0));
            let c = ref_at(*mf, h);
            assert(valid_ref(*mf, r.0 as int, r.1 as int) && idx_of(*mf, r.0 as int, r.1 as int)
                == h);
            assert(valid_ref(*mf, c.0, c.1) && idx_of(*mf, c.0, c.1) == h);
        }
    }
    Some(refs)
}

fn order_leaves(mf: &Manifest, seen: &Vec<Vec<Digest>>, Ghost(files): Ghost<
    Seq<Option<Seq<u8>>>,
>) -> (r: Option<Vec<Digest>>)
    requires
        mf.total_chunks <= usize::MAX,
        seen_of(seen@, *mf, files),
    ensures
        match r {
            Some(leaves) => indices_ok(*mf) && digests(leaves@) == observed_leaves(*mf, files),
            None => !indices_ok(*mf),
        },
{
    let refs = match index_refs(mf) {
        None => {
            return None;
        },
        Some(x) => x,
    };
    let mut leaves: Vec<Digest> = Vec::new();
    let mut g: usize = 0;
    while g < refs.len()
        invariant
            g <= refs.len(),
            refs_of(refs@, *mf),
            seen_of(seen@, *mf, files),
            leaves@.len() == g,
            forall|h: int|
                0 <= h < g ==> (#[trigger] leaves@[h])@ == observed_leaves(*mf, files)[h],
        decreases refs.len() - g,
    {
        let (fi, ci) = refs[g];
        assert(valid_ref(*mf, refs@[g as int].0 as int, refs@[g as int].1 as int));
        let d: Digest = seen[fi][ci];
        leaves.push(d);
        g += 1;
    }
    assert(digests(leaves@) =~= observed_leaves(*mf, files));
    Some(leaves)
}

/// Verifies the present contents of the files against the manifest. Entry
/// `i` of `files` holds the contents of file `i` of the manifest, or nothing
/// where that file is missing or cannot be read. A chunk counts as bad where
/// it is damaged; the Merkle root is recomputed from the digests found. Of
/// the paths only the text is judged here: what lies on disk is judged by
/// `verify_with_manifest`, which takes what was found there.
pub fn verify_contents(mf: &Manifest, files: &Vec<Option<Vec<u8>>>) -> (r: Result<
    VerifyReport,
    VerifyError,
>)
    ensures
        match r {
            Ok(rep) => {
                let cv = content_views(files@);
                let n = mf.files@.len() as int;
                &&& verify_error(*mf, cv) is None
                &&& rep.chunks_ok == intact_count(cv, mf.files@, mf.chunk_size as nat, n)
                &&& rep.chunks_ok + rep.chunks_bad == mf.total_chunks
                &&& rep.merkle_ok == (hex_of(merkle_root(observed_leaves(*mf, cv)))
                    == mf.merkle_root_hex@)
            },
            Err(e) => verify_error(*mf, content_views(files@)) == Some(e),
        },
{
    if files.len() != mf.files.len() {
        return Err(VerifyError::FileCount);
    }
    match check_paths(mf) {
        Some(e) => {
            return Err(VerifyError::UnsafePath(e));
        },
        None => {},
    }
    if mf.total_chunks > usize::MAX as u64 {
        return Err(VerifyError::BadManifest);
    }
    let ghost cv = content_views(files@);
    let (ok, refs, seen) = match scan_files(mf, files) {
        None => {
            return Err(VerifyError::BadManifest);
        },
        Some(x) => x,
    };
    if refs != mf.total_chunks {
        return Err(VerifyError::BadManifest);
    }
    let leaves = match order_leaves(mf, &seen, Ghost(cv)) {
        None => {
            return Err(VerifyError::BadManifest);
        },
        Some(l) => l,
    };
    proof {
        lemma_intact_count_bounds(cv, mf.files@, mf.chunk_size as nat, mf.files@.len() as int);
    }
    let computed = hex(root(leaves.as_slice()).as_slice());
    let merkle_ok = computed == mf.merkle_root_hex;
    Ok(VerifyReport { chunks_ok: ok, chunks_bad: refs - ok, merkle_ok })
}

/// The refusal of the first of the first `n` files whose path the policy
/// refuses: for what its text says, else for what was found on disk for it.
pub open spec fn first_refused(mf: Manifest, policy: PathPolicy, found: Seq<LinkFacts>, n: int) -> Option<
    PathError,
>
    decreases n,
{
    if n <= 0 {
        None
    } else {
        match first_refused(mf, policy, found, n - 1) {
            Some(e) => Some(e),
            None => path_error(encode_utf8(mf.files@[n - 1].rel_path@), policy, found[n - 1]),
        }
    }
}

proof fn lemma_first_refused_stays(
    mf: Manifest,
    policy: PathPolicy,
    found: Seq<LinkFacts>,
    n: int,
    end: int,
)
    requires
        0 <= n <= end,
        first_refused(mf, policy, found, n) is Some,
    ensures
        first_refused(mf, policy, found, end) == first_refused(mf, policy, found, n),
    decreases end - n,
{
    if n < end {
        lemma_first_refused_stays(mf, policy, found, n, end - 1);
    }
}

/// The first file whose path the policy refuses, with the reason: file by
/// file, the text of the path first, then what was found on disk for it.
pub(crate) fn check_policy(mf: &Manifest, policy: PathPolicy, found: &Vec<LinkFacts>) -> (r: Option<
    PathError,
>)
    requires
        found@.len() == mf.files@.len(),
    ensures
        r == first_refused(*mf, policy, found@, mf.files@.len() as int),
{
    let mut fi: usize = 0;
    while fi < mf.files.len()
        invariant
            fi <= mf.files.len(),
            found@.len() == mf.files@.len(),
            first_refused(*mf, policy, found@, fi as int) is None,
        decreases mf.files.len() - fi,
    {
        let text = check_relative(mf.files[fi].rel_path.as_str().as_bytes());
        let refusal: Option<PathError> = match text {
            Err(e) => Some(e),
            Ok(_) => match decide_links(policy, found[fi].link_on_path, found[fi].contained) {
                Err(e) => Some(e),
                Ok(_) => None,
            },
        };
        match refusal {
            Some(e) => {
                proof {
                    lemma_first_refused_stays(*mf, policy, found@, fi + 1, mf.files@.len() as int);
                }
                return Some(e);
            },
            None => {},
        }
        fi += 1;
    }
    None
}

/// Why verifying under a policy fails, if it does: what was found on disk is
/// not one set of facts per file; or the path of some file is refused, for
/// its text or for what was found on disk for it; or verifying the contents
/// fails.
pub open spec fn policy_error(
    mf: Manifest,
    files: Seq<Option<Seq<u8>>>,
    policy: PathPolicy,
    found: Seq<LinkFacts>,
) -> Option<VerifyError> {
    if found.len() != mf.files@.len() {
        Some(VerifyError::FileCount)
    } else {
        match first_refused(mf, policy, found, found.len() as int) {
            Some(e) => Some(VerifyError::UnsafePath(e)),
            None => verify_error(mf, files),
        }
    }
}

/// Verifies the files against the manifest under a policy on symbolic links.
/// Entry `i` of `found` tells what the caller found on disk for the path of
/// file `i`.
pub fn verify_with_manifest(
    mf: &Manifest,
    files: &Vec<Option<Vec<u8>>>,
    policy: PathPolicy,
    found: &Vec<LinkFacts>,
) -> (r: Result<VerifyReport, VerifyError>)
    ensures
        match r {
            Ok(rep) => {
                let cv = content_views(files@);
                let n = mf.files@.len() as int;
                &&& policy_error(*mf, cv, policy, found@) is None
                &&& rep.chunks_ok == intact_count(cv, mf.files@, mf.chunk_size as nat, n)
                &&& rep.chunks_ok + rep.chunks_bad == mf.total_chunks
                &&& rep.merkle_ok == (hex_of(merkle_root(observed_leaves(*mf, cv)))
                    == mf.merkle_root_hex@)
            },
            Err(e) => policy_error(*mf, content_views(files@), policy, found@) == Some(e),
        },
{
    if found.len() != mf.files.len() {
        return Err(VerifyError::FileCount);
    }
    match check_policy(mf, policy, found) {
        Some(e) => {
            return Err(VerifyError::UnsafePath(e));
        },
        None => {},
    }
    verify_contents(mf, files)
}

/// Verifies the files against the manifest under a policy on symbolic links.
/// It is `verify_with_manifest` under a second name: reading the manifest
/// from where it is kept is the caller's.
pub fn verify_with_policy(
    mf: &Manifest,
    files: &Vec<Option<Vec<u8>>>,
    policy: PathPolicy,
    found: &Vec<LinkFacts>,
) -> (r: Result<VerifyReport, VerifyError>)
    ensures
        match r {
            Ok(rep) => {
                let cv = content_views(files@);
                let n = mf.files@.len() as int;
                &&& policy_error(*mf, cv, policy, found@) is None
                &&& rep.chunks_ok == intact_count(cv, mf.files@, mf.chunk_size as nat, n)
                &&& rep.chunks_ok + rep.chunks_bad == mf.total_chunks
                &&& rep.merkle_ok == (hex_of(merkle_root(observed_leaves(*mf, cv)))
                    == mf.merkle_root_hex@)
            },
            Err(e) => policy_error(*mf, content_views(files@), policy, found@) == Some(e),
        },
{
    verify_with_manifest(mf, files, policy, found)
}

/// The policy that holds where none is given: links are not followed.
pub open spec fn default_policy() -> PathPolicy {
    PathPolicy { follow_symlinks: false }
}

/// Verifies the files against the manifest under the default policy, which
/// refuses a symbolic link on any path. Entry `i` of `found` tells what the
/// caller found on disk for the path of file `i`.
pub fn verify(mf: &Manifest, files: &Vec<Option<Vec<u8>>>, found: &Vec<LinkFacts>) -> (r: Result<
    VerifyReport,
    VerifyError,
>)
    ensures
        match r {
            Ok(rep) => {
                let cv = content_views(files@);
                let n = mf.files@.len() as int;
                &&& policy_error(*mf, cv, default_policy(), found@) is None
                &&& rep.chunks_ok == intact_count(cv, mf.files@, mf.chunk_size as nat, n)
                &&& rep.chunks_ok + rep.chunks_bad == mf.total_chunks
                &&& rep.merkle_ok == (hex_of(merkle_root(observed_leaves(*mf, cv)))
                    == mf.merkle_root_hex@)
            },
            Err(e) => policy_error(*mf, content_views(files@), default_policy(), found@) == Some(
                e,
            ),
        },
{
    verify_with_policy(mf, files, PathPolicy { follow_symlinks: false }, found)
}

/// Whether the verifier's findings mean that the files are as the manifest
/// records them: no bad chunk, and the Merkle root matches.
pub fn is_ok(rep: &VerifyReport) -> (ok: bool)
    ensures
        ok == (rep.chunks_bad == 0 && rep.merkle_ok),
{
    rep.chunks_bad == 0 && rep.merkle_ok
}

/// The verdict on the verifier's findings: `OK` where no chunk is bad and the
/// Merkle root matches, else `BAD`.
pub open spec fn verdict_of(rep: VerifyReport) -> Seq<char> {
    if rep.chunks_bad == 0 && rep.merkle_ok {
        "OK"@
    } else {
        "BAD"@
    }
}

/// The verdict on the verifier's findings, as it is printed.
pub fn verdict(rep: &VerifyReport) -> (s: String)
    ensures
        s@ == verdict_of(*rep),
{
    if is_ok(rep) {
        String::from_str("OK")
    } else {
        String::from_str("BAD")
    }
}

} // verus!
