//! Reading volumes of the earlier layouts, and surveying a volume of any
//! layout: its header, its index, and which of its shards still have their
//! recorded digest.

use crate::hash::{blake3_digest, blake3_hash};
use crate::index::{
    crc32, crc32_of, decode_under, decoded_under, open_index, parse_decompressed,
    read_decompressed, volume_index, IndexError, IndexLimits,
};
use crate::volume::{
    bytes_at, decode_header_bin, legacy_magic, parse_header, parse_header_bin, read_header,
    VolumeEntry, VolumeHeaderBin, OUTER_STRIPE,
};
use vstd::bytes::{spec_u32_from_le_bytes, u32_from_le_bytes};
use vstd::prelude::*;
use vstd::slice::slice_subrange;

verus! {

/// The four bytes at `pos`, read as a little-endian number.
pub open spec fn le32_at(f: Seq<u8>, pos: int) -> u32 {
    spec_u32_from_le_bytes(f.subrange(pos, pos + 4))
}

/// The compressed index that stands right after the header of a volume of an
/// earlier layout, where there is one: a length, in the second layout also a
/// checksum, then that many bytes, which in the second layout must have the
/// checksum.
pub open spec fn inline_frame(f: Seq<u8>, after: int, v2: bool) -> Option<Seq<u8>> {
    let need: int = if v2 {
        8
    } else {
        4
    };
    if f.len() < after + need {
        None
    } else {
        let zlen = le32_at(f, after);
        let start = after + need;
        if zlen > 0 && start + zlen <= f.len() {
            let buf = f.subrange(start, start + zlen);
            if !v2 || crc32_of(buf) == le32_at(f, after + 4) {
                Some(buf)
            } else {
                None
            }
        } else {
            None
        }
    }
}

/// The compressed index at the end of a volume of an earlier layout, where
/// there is one: the file ends in a length, in the second layout followed by
/// a checksum, and the bytes in front of these are the index. Nothing where
/// the length is zero or larger than the file; a failure where the checksum
/// of the second layout is not that of the bytes.
pub open spec fn trailer_frame(f: Seq<u8>, v2: bool) -> Result<Option<Seq<u8>>, IndexError> {
    let need: int = if v2 {
        8
    } else {
        4
    };
    if f.len() < need {
        Ok(None)
    } else {
        let zlen = le32_at(f, f.len() - need);
        if zlen == 0 || zlen + need > f.len() {
            Ok(None)
        } else {
            let buf = f.subrange(f.len() - need - zlen, f.len() - need);
            if v2 && crc32_of(buf) != le32_at(f, f.len() - 4) {
                Err(IndexError::CrcMismatch)
            } else {
                Ok(Some(buf))
            }
        }
    }
}

/// The compressed index of a volume of an earlier layout whose header record
/// has `hdr_len` bytes: the one right after the header where there is one,
/// else the one at the end of the file.
pub open spec fn legacy_frame(f: Seq<u8>, hdr_len: int, v2: bool) -> Result<
    Option<Seq<u8>>,
    IndexError,
> {
    if f.len() < 4 {
        Ok(None)
    } else {
        match inline_frame(f, 11 + hdr_len, v2) {
            Some(b) => Ok(Some(b)),
            None => trailer_frame(f, v2),
        }
    }
}

/// What a reader makes of the index of a volume of an earlier layout: no
/// entry where the volume holds no index, else the entries of the index,
/// decompressed and decoded under the limits, in either entry layout.
pub open spec fn legacy_index(f: Seq<u8>, hdr_len: int, v2: bool, limits: IndexLimits) -> Result<
    Seq<VolumeEntry>,
    IndexError,
> {
    match legacy_frame(f, hdr_len, v2) {
        Err(e) => Err(e),
        Ok(None) => Ok(Seq::empty()),
        Ok(Some(z)) => match decoded_under(z, limits.max_uncompressed_bytes) {
            Err(e) => Err(e),
            Ok(raw) => parse_decompressed(raw, limits),
        },
    }
}

fn read_le32(f: &[u8], pos: usize) -> (x: u32)
    requires
        pos + 4 <= f@.len(),
    ensures
        x == le32_at(f@, pos as int),
{
    let n: usize = f.len();
    u32_from_le_bytes(slice_subrange(f, pos, pos + 4))
}

fn inline_frame_exec<'a>(f: &'a [u8], hdr_len: usize, v2: bool) -> (r: Option<&'a [u8]>)
    ensures
        match r {
            Some(b) => inline_frame(f@, 11 + hdr_len, v2) == Some(b@),
            None => inline_frame(f@, 11 + hdr_len, v2) is None,
        },
{
    let flen: u64 = f.len() as u64;
    let need: u64 = if v2 {
        8
    } else {
        4
    };
    if hdr_len as u64 > flen || flen - (hdr_len as u64) < 11 {
        return None;
    }
    let after: u64 = 11 + hdr_len as u64;
    if flen - after < need {
        return None;
    }
    let at: usize = after as usize;
    let zlen: u64 = read_le32(f, at) as u64;
    let start: u64 = after + need;
    if zlen > 0 && flen - start >= zlen {
        let s0: usize = start as usize;
        let buf = slice_subrange(f, s0, s0 + zlen as usize);
        if !v2 || crc32(buf) == read_le32(f, at + 4) {
            Some(buf)
        } else {
            None
        }
    } else {
        None
    }
}

fn trailer_frame_exec<'a>(f: &'a [u8], v2: bool) -> (r: Result<Option<&'a [u8]>, IndexError>)
    ensures
        match r {
            Ok(Some(b)) => trailer_frame(f@, v2) == Ok::<Option<Seq<u8>>, IndexError>(Some(b@)),
            Ok(None) => trailer_frame(f@, v2) == Ok::<Option<Seq<u8>>, IndexError>(None),
            Err(e) => trailer_frame(f@, v2) == Err::<Option<Seq<u8>>, IndexError>(e),
        },
{
    let flen: usize = f.len();
    let need: usize = if v2 {
        8
    } else {
        4
    };
    if flen < need {
        return Ok(None);
    }
    let zlen: u64 = read_le32(f, flen - need) as u64;
    if zlen == 0 || zlen > (flen - need) as u64 {
        return Ok(None);
    }
    let z: usize = zlen as usize;
    let buf = slice_subrange(f, flen - need - z, flen - need);
    if v2 && crc32(buf) != read_le32(f, flen - 4) {
        Err(IndexError::CrcMismatch)
    } else {
        Ok(Some(buf))
    }
}

/// Reads the index of a volume of an earlier layout whose header record has
/// `hdr_len` bytes, under the limits.
pub fn read_volume_index(f: &[u8], hdr_len: usize, v2: bool, limits: &IndexLimits) -> (r: Result<
    Vec<VolumeEntry>,
    IndexError,
>)
    ensures
        match r {
            Ok(v) => legacy_index(f@, hdr_len as int, v2, *limits) == Ok::<
                Seq<VolumeEntry>,
                IndexError,
            >(v@),
            Err(e) => legacy_index(f@, hdr_len as int, v2, *limits) == Err::<
                Seq<VolumeEntry>,
                IndexError,
            >(e),
        },
{
    if f.len() < 4 {
        return Ok(Vec::new());
    }
    let frame: &[u8] = match inline_frame_exec(f, hdr_len, v2) {
        Some(b) => b,
        None => match trailer_frame_exec(f, v2) {
            Err(e) => {
                return Err(e);
            },
            Ok(None) => {
                return Ok(Vec::new());
            },
            Ok(Some(b)) => b,
        },
    };
    match decode_under(frame, limits.max_uncompressed_bytes) {
        Err(e) => Err(e),
        Ok(raw) => read_decompressed(raw.as_slice(), limits),
    }
}

/// Why the start of a file is no volume of an earlier layout.
#[derive(Clone, Copy, Debug, PartialEq, Eq, Structural)]
pub enum LegacyError {
    /// The file does not start with the magic of an earlier layout.
    BadHeader,
    /// The file ends before the length of the header record.
    HeaderLength,
    /// The file ends before the header record does.
    HeaderPayload,
    /// The header record cannot be decoded.
    HeaderDecode,
}

/// The start of a volume of an earlier layout.
#[derive(Clone, Copy, Debug)]
pub struct LegacyHeader {
    /// Whether the volume is of the second layout.
    pub v2: bool,
    /// Length of the header record.
    pub hdr_len: u32,
    pub header: VolumeHeaderBin,
}

/// What a reader makes of the start of a volume of an earlier layout: seven
/// bytes of magic, the length of the header record, and the record.
pub open spec fn parse_legacy_prefix(f: Seq<u8>) -> Result<LegacyHeader, LegacyError> {
    if f.len() < 7 || (f.subrange(0, 7) != legacy_magic(true) && f.subrange(0, 7) != legacy_magic(
        false,
    )) {
        Err(LegacyError::BadHeader)
    } else if f.len() < 11 {
        Err(LegacyError::HeaderLength)
    } else {
        let hdr_len = le32_at(f, 7);
        if f.len() < 11 + hdr_len {
            Err(LegacyError::HeaderPayload)
        } else {
            match parse_header_bin(f.subrange(11, 11 + hdr_len)) {
                None => Err(LegacyError::HeaderDecode),
                Some(h) => Ok(
                    LegacyHeader { v2: f.subrange(0, 7) == legacy_magic(true), hdr_len, header: h },
                ),
            }
        }
    }
}

fn legacy_magic_bytes(v2: bool) -> (v: Vec<u8>)
    ensures
        v@ == legacy_magic(v2),
{
    let mut v: Vec<u8> = Vec::new();
    v.push(0x50u8);
    v.push(0x41u8);
    v.push(0x52u8);
    v.push(0x58u8);
    v.push(0x42u8);
    v.push(0x56u8);
    v.push(if v2 {
        0x32u8
    } else {
        0x31u8
    });
    assert(v@ =~= legacy_magic(v2));
    v
}

/// Reads the start of a volume of an earlier layout.
pub fn read_legacy_prefix(f: &[u8]) -> (r: Result<LegacyHeader, LegacyError>)
    ensures
        match r {
            Ok(h) => parse_legacy_prefix(f@) matches Ok(p) && p.v2 == h.v2 && p.hdr_len
                == h.hdr_len && p.header == h.header,
            Err(e) => parse_legacy_prefix(f@) == Err::<LegacyHeader, LegacyError>(e),
        },
{
    if f.len() < 7 {
        return Err(LegacyError::BadHeader);
    }
    let m2 = legacy_magic_bytes(true);
    let m1 = legacy_magic_bytes(false);
    let v2 = bytes_at(f, 0, m2.as_slice());
    if !v2 && !bytes_at(f, 0, m1.as_slice()) {
        return Err(LegacyError::BadHeader);
    }
    if f.len() < 11 {
        return Err(LegacyError::HeaderLength);
    }
    let hdr_len: u32 = read_le32(f, 7);
    if f.len() - 11 < hdr_len as usize {
        return Err(LegacyError::HeaderPayload);
    }
    match decode_header_bin(slice_subrange(f, 11, 11 + hdr_len as usize)) {
        Err(_) => Err(LegacyError::HeaderDecode),
        Ok(header) => Ok(LegacyHeader { v2, hdr_len, header }),
    }
}

/// The shard that an entry points at has the digest that the entry records.
pub open spec fn shard_verified(vol: Seq<u8>, e: VolumeEntry) -> bool {
    &&& e.hash is Some
    &&& e.offset + e.len <= vol.len()
    &&& blake3_digest(vol.subrange(e.offset as int, e.offset + e.len)) == e.hash->0@
}

/// Whether the shard that an entry points at has the digest that the entry
/// records. An entry without a digest, or one that points outside the
/// volume, is not verified.
pub fn verify_shard(vol: &[u8], e: &VolumeEntry) -> (r: bool)
    ensures
        r == shard_verified(vol@, *e),
{
    match e.hash {
        None => false,
        Some(h) => {
            let vlen: u64 = vol.len() as u64;
            if e.offset > vlen || vlen - e.offset < e.len as u64 {
                return false;
            }
            let start: usize = e.offset as usize;
            let d = blake3_hash(slice_subrange(vol, start, start + e.len as usize));
            let mut same = true;
            let mut i: usize = 0;
            while i < 32
                invariant
                    i <= 32,
                    same == (forall|j: int| 0 <= j < i ==> h@[j] == d@[j]),
                decreases 32 - i,
            {
                if h[i] != d[i] {
                    same = false;
                }
                i += 1;
            }
            if same {
                assert(h@ =~= d@);
            } else {
                assert(h@ != d@);
            }
            same
        },
    }
}

/// What kind of shard an entry describes.
#[derive(Clone, Copy, Debug, PartialEq, Eq, Structural)]
pub enum ShardKind {
    /// An inner parity shard of the stripe given.
    Inner(u32),
    /// An outer parity shard for the stripe given.
    Outer(u32),
    /// An entry with the sentinel stripe value that names no stripe.
    Stray,
}

/// The kind of shard that an entry describes.
pub open spec fn kind_of(e: VolumeEntry) -> ShardKind {
    if e.stripe != OUTER_STRIPE {
        ShardKind::Inner(e.stripe)
    } else {
        match e.outer_for_stripe {
            Some(s) => ShardKind::Outer(s),
            None => ShardKind::Stray,
        }
    }
}

/// The kind of shard that an entry describes.
pub fn shard_kind(e: &VolumeEntry) -> (k: ShardKind)
    ensures
        k == kind_of(*e),
{
    if e.stripe != OUTER_STRIPE {
        ShardKind::Inner(e.stripe)
    } else {
        match e.outer_for_stripe {
            Some(s) => ShardKind::Outer(s),
            None => ShardKind::Stray,
        }
    }
}

/// Number of entries of the given kind, and number of those whose shard is
/// verified.
pub open spec fn tally_of(vol: Seq<u8>, entries: Seq<VolumeEntry>, kind: ShardKind) -> (nat, nat)
    decreases entries.len(),
{
    if entries.len() == 0 {
        (0, 0)
    } else {
        let prev = tally_of(vol, entries.drop_last(), kind);
        let e = entries.last();
        if kind_of(e) == kind {
            (
                prev.0 + 1,
                prev.1 + if shard_verified(vol, e) {
                    1nat
                } else {
                    0nat
                },
            )
        } else {
            prev
        }
    }
}

/// Counts the entries of the given kind in a volume, and those among them
/// whose shard still has the recorded digest.
pub fn tally_kind(vol: &[u8], entries: &Vec<VolumeEntry>, kind: ShardKind) -> (r: (usize, usize))
    ensures
        r.0 == tally_of(vol@, entries@, kind).0,
        r.1 == tally_of(vol@, entries@, kind).1,
        r.1 <= r.0,
{
    let mut present: usize = 0;
    let mut verified: usize = 0;
    let mut i: usize = 0;
    while i < entries.len()
        invariant
            i <= entries.len(),
            present == tally_of(vol@, entries@.take(i as int), kind).0,
            verified == tally_of(vol@, entries@.take(i as int), kind).1,
            verified <= present <= i,
        decreases entries.len() - i,
    {
        proof {
            assert(entries@.take(i + 1).drop_last() =~= entries@.take(i as int));
            assert(entries@.take(i + 1).last() == entries@[i as int]);
        }
        if shard_kind(&entries[i]) == kind {
            present += 1;
            if verify_shard(vol, &entries[i]) {
                verified += 1;
            }
        }
        i += 1;
    }
    assert(entries@.take(i as int) =~= entries@);
    (present, verified)
}

/// How a volume was found.
#[derive(Clone, Copy, Debug, PartialEq, Eq, Structural)]
pub enum VolumeStatus {
    /// Header and index were read.
    Good,
    /// The header could not be read.
    BadHeader,
    /// The header was read, the index could not: the volume counts as one
    /// without entries.
    BadIndex(IndexError),
    /// The volume could not be opened. No survey answers with this: it is
    /// for the caller that has no bytes to survey.
    OpenError,
}

/// What a survey of a volume found.
#[derive(Debug)]
pub struct VolumeSurvey {
    pub status: VolumeStatus,
    /// K as the header gives it, 0 where the header could not be read.
    pub k: u32,
    /// M as the header gives it, 0 where the header could not be read.
    pub m: u32,
    /// Number of entries as the header gives it.
    pub header_count: u32,
    /// The entries of the index, none where it could not be read.
    pub entries: Vec<VolumeEntry>,
}

/// What a survey makes of a volume of the current layout or of an earlier
/// one: status, the header's numbers, and the entries.
pub open spec fn survey_of(f: Seq<u8>, limits: IndexLimits) -> (VolumeStatus, u32, u32, u32, Seq<
    VolumeEntry,
>) {
    match parse_header(f) {
        Ok(h) => match volume_index(f, limits) {
            Ok(es) => (VolumeStatus::Good, h.k, h.m, h.entries_len, es),
            Err(e) => (VolumeStatus::BadIndex(e), h.k, h.m, h.entries_len, Seq::empty()),
        },
        Err(_) => match parse_legacy_prefix(f) {
            Err(_) => (VolumeStatus::BadHeader, 0, 0, 0, Seq::empty()),
            Ok(p) => match legacy_index(f, p.hdr_len as int, p.v2, limits) {
                Ok(es) => (VolumeStatus::Good, p.header.k, p.header.m, p.header.entries_len, es),
                Err(e) => (
                    VolumeStatus::BadIndex(e),
                    p.header.k,
                    p.header.m,
                    p.header.entries_len,
                    Seq::empty(),
                ),
            },
        },
    }
}

/// Surveys a volume: reads its header in the current layout or an earlier
/// one, then its index. Nothing here fails: a volume that cannot be read is
/// reported with its status and without entries.
pub fn survey_volume(f: &[u8], limits: &IndexLimits) -> (s: VolumeSurvey)
    ensures
        s.status == survey_of(f@, *limits).0,
        s.k == survey_of(f@, *limits).1,
        s.m == survey_of(f@, *limits).2,
        s.header_count == survey_of(f@, *limits).3,
        s.entries@ == survey_of(f@, *limits).4,
        s.status != VolumeStatus::Good ==> s.entries@.len() == 0,
{
    match read_header(f) {
        Ok(h) => match open_index(f, limits) {
            Ok(entries) => VolumeSurvey {
                status: VolumeStatus::Good,
                k: h.k,
                m: h.m,
                header_count: h.entries_len,
                entries,
            },
            Err(e) => VolumeSurvey {
                status: VolumeStatus::BadIndex(e),
                k: h.k,
                m: h.m,
                header_count: h.entries_len,
                entries: Vec::new(),
            },
        },
        Err(_) => match read_legacy_prefix(f) {
            Err(_) => VolumeSurvey {
                status: VolumeStatus::BadHeader,
                k: 0,
                m: 0,
                header_count: 0,
                entries: Vec::new(),
            },
            Ok(p) => match read_volume_index(f, p.hdr_len as usize, p.v2, limits) {
                Ok(entries) => VolumeSurvey {
                    status: VolumeStatus::Good,
                    k: p.header.k,
                    m: p.header.m,
                    header_count: p.header.entries_len,
                    entries,
                },
                Err(e) => VolumeSurvey {
                    status: VolumeStatus::BadIndex(e),
                    k: p.header.k,
                    m: p.header.m,
                    header_count: p.header.entries_len,
                    entries: Vec::new(),
                },
            },
        },
    }
}

} // verus!
