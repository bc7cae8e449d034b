//! The index section at the end of a volume: a descriptor, the compressed
//! entries, an optional record that locates a manifest backup, and the trailer
//! that locates and checks the index.

use crate::hash::extend_bytes;
use crate::volume::{
    bytes_at, decode_entries_anyver, encode_entries, index_bytes, lemma_index_roundtrip_anyver,
    parse_index_anyver, VolumeEntry,
};
use vstd::bytes::{
    lemma_auto_spec_u32_to_from_le_bytes, spec_u32_from_le_bytes, spec_u32_to_le_bytes, spec_u64_from_le_bytes, spec_u64_to_le_bytes,
    u32_from_le_bytes, u32_to_le_bytes, u64_from_le_bytes, u64_to_le_bytes,
};
use vstd::prelude::*;
use vstd::slice::slice_subrange;

verus! {

/// Length of the trailer at the end of a volume.
pub const TRAILER_LEN: usize = 26;

/// Length of the descriptor in front of the compressed entries.
pub const INDEX_DESC_LEN: usize = 21;

/// Length of the record that locates a manifest backup.
pub const MB_TLV_LEN: usize = 25;

/// Where the compressed manifest backup lies in a volume, and its checksum.
#[derive(Clone, Copy, Debug, PartialEq, Eq, Structural)]
pub struct ManifestBackupMeta {
    pub off: u64,
    pub len: u32,
    pub crc32: u32,
}

/// Bounds that a reader puts on an index.
#[derive(Clone, Copy, Debug, PartialEq, Eq, Structural)]
pub struct IndexLimits {
    pub max_uncompressed_bytes: usize,
    pub max_entries: usize,
}

impl Default for IndexLimits {
    fn default() -> (l: IndexLimits)
        ensures
            l.max_uncompressed_bytes == 32 * 1024 * 1024,
            l.max_entries == 5_000_000,
    {
        IndexLimits { max_uncompressed_bytes: 32 * 1024 * 1024, max_entries: 5_000_000 }
    }
}

/// Why an index section cannot be written or read.
#[derive(Clone, Copy, Debug, PartialEq, Eq, Structural)]
pub enum IndexError {
    /// The volume is shorter than a trailer.
    TooShort,
    /// The last bytes do not start with the trailer magic.
    BadTrailerMagic,
    /// The trailer points outside the volume.
    OutOfBounds,
    /// The checksum in the trailer is not that of the bytes it covers.
    CrcMismatch,
    /// The payload is no zstd frame, or compressing failed.
    Compression,
    /// The index is larger than the limit, or too large to be described.
    TooLarge,
    /// The decompressed bytes are no list of entries.
    Decode,
    /// The index lists more entries than the limit.
    TooManyEntries,
}

/// The CRC-32 checksum of a byte string, as `crc32fast::hash` computes it.
pub uninterp spec fn crc32_of(data: Seq<u8>) -> u32;

/// What `zstd::stream::encode_all` makes of a byte string at a compression
/// level: the zstd frame, or nothing where the call reports an error.
pub uninterp spec fn zstd_compressed(data: Seq<u8>, level: int) -> Option<Seq<u8>>;

/// The frame that compressing at the default level gives, empty where the
/// compressor gives none.
pub open spec fn zstd_frame(data: Seq<u8>) -> Seq<u8> {
    match zstd_compressed(data, 0) {
        Some(c) => c,
        None => Seq::empty(),
    }
}

/// What `zstd::stream::decode_all` makes of a byte string: the decompressed
/// bytes, or nothing where the input is rejected.
pub uninterp spec fn zstd_decoded(data: Seq<u8>) -> Option<Seq<u8>>;

/// Calls `crc32fast::hash`. The checksum is a function of the bytes alone; its
/// value is named, not described.
#[verifier::external_body]
pub(crate) fn crc32(data: &[u8]) -> (c: u32)
    ensures
        c == crc32_of(data@),
{
    crc32fast::hash(data)
}

/// Calls `zstd::stream::encode_all` on a slice and gives its result as named:
/// the frame, or nothing where the call reports an error. Whether it succeeds
/// depends on the bytes and the level alone. Decompressing a frame that it
/// made gives the bytes back.
#[verifier::external_body]
pub(crate) fn zstd_compress(data: &[u8], level: i32) -> (r: Option<Vec<u8>>)
    ensures
        match r {
            Some(c) => zstd_compressed(data@, level as int) == Some(c@) && zstd_decoded(c@)
                == Some(data@),
            None => zstd_compressed(data@, level as int) is None,
        },
{
    zstd::stream::encode_all(data, level).ok()
}

/// Calls `zstd::stream::decode_all` on a slice and gives its result as named:
/// the decompressed bytes, or nothing where the call reports an error.
#[verifier::external_body]
pub(crate) fn zstd_decompress(data: &[u8]) -> (r: Option<Vec<u8>>)
    ensures
        match r {
            Some(d) => zstd_decoded(data@) == Some(d@),
            None => zstd_decoded(data@) is None,
        },
{
    zstd::stream::decode_all(data).ok()
}

/// What reading at most `limit` bytes from a `zstd::stream::read::Decoder`
/// over a byte string gives: the bytes read, or nothing where the decoder
/// reports an error before the limit is reached or the stream ends.
pub uninterp spec fn zstd_decoded_upto(data: Seq<u8>, limit: int) -> Option<Seq<u8>>;

/// The first `limit` bytes, or all of them where there are fewer.
pub open spec fn first_bytes(d: Seq<u8>, limit: int) -> Seq<u8> {
    if d.len() < limit {
        d
    } else {
        d.take(limit)
    }
}

/// Makes a `zstd::stream::read::Decoder` over a slice and reads at most
/// `limit` bytes from it, so that no more than `limit` bytes are ever held.
/// The result is named. It is the start of the stream that `decode_all`
/// reads to its end: where that succeeds, this gives its first `limit` bytes,
/// or all of them where there are fewer; and where this gives fewer than
/// `limit` bytes, the stream has ended, and they are all that `decode_all`
/// gives. An error within the part that is read is an error of the whole.
#[verifier::external_body]
pub(crate) fn zstd_decompress_upto(data: &[u8], limit: usize) -> (r: Option<Vec<u8>>)
    ensures
        match r {
            Some(out) => {
                &&& zstd_decoded_upto(data@, limit as int) == Some(out@)
                &&& out@.len() <= limit
                &&& out@.len() < limit ==> zstd_decoded(data@) == Some(out@)
                &&& zstd_decoded(data@) matches Some(d) ==> out@ == first_bytes(d, limit as int)
            },
            None => zstd_decoded_upto(data@, limit as int) is None && zstd_decoded(data@) is None,
        },
{
    let mut out: Vec<u8> = Vec::new();
    let decoder = zstd::stream::read::Decoder::new(data).ok()?;
    let mut bounded = std::io::Read::take(decoder, limit as u64);
    std::io::Read::read_to_end(&mut bounded, &mut out).ok()?;
    Some(out)
}

/// What decompressing a frame under a bound gives: the decompressed bytes
/// where they are no more than `max`; `TooLarge` where the frame gives more
/// than `max` bytes, whether or not it is sound beyond them; `Compression`
/// where it is rejected before that.
pub open spec fn decoded_under(frame: Seq<u8>, max: usize) -> Result<Seq<u8>, IndexError> {
    match zstd_decoded(frame) {
        Some(raw) => if raw.len() > max {
            Err(IndexError::TooLarge)
        } else {
            Ok(raw)
        },
        None => if max < usize::MAX && zstd_decoded_upto(frame, max + 1) is Some {
            Err(IndexError::TooLarge)
        } else {
            Err(IndexError::Compression)
        },
    }
}

/// Decompresses a frame without ever holding more than `max` bytes and one.
pub fn decode_under(frame: &[u8], max: usize) -> (r: Result<Vec<u8>, IndexError>)
    ensures
        match r {
            Ok(raw) => decoded_under(frame@, max) == Ok::<Seq<u8>, IndexError>(raw@),
            Err(e) => decoded_under(frame@, max) == Err::<Seq<u8>, IndexError>(e),
        },
{
    if max == usize::MAX {
        return match zstd_decompress(frame) {
            None => Err(IndexError::Compression),
            Some(raw) => {
                assert(raw@.len() == raw.len());
                Ok(raw)
            },
        };
    }
    match zstd_decompress_upto(frame, max + 1) {
        None => Err(IndexError::Compression),
        Some(raw) => {
            if raw.len() > max {
                Err(IndexError::TooLarge)
            } else {
                Ok(raw)
            }
        },
    }
}

/// The ten bytes `PARXINDEX` and NUL that open the trailer.
pub open spec fn trailer_magic() -> Seq<u8> {
    seq![0x50u8, 0x41u8, 0x52u8, 0x58u8, 0x49u8, 0x4eu8, 0x44u8, 0x45u8, 0x58u8, 0x00u8]
}

/// The nine bytes `PARXIDXD` and NUL that open the index descriptor.
pub open spec fn desc_magic() -> Seq<u8> {
    seq![0x50u8, 0x41u8, 0x52u8, 0x58u8, 0x49u8, 0x44u8, 0x58u8, 0x44u8, 0x00u8]
}

/// The nine bytes `PARXMBTL` and NUL that open the manifest backup record.
pub open spec fn mb_magic() -> Seq<u8> {
    seq![0x50u8, 0x41u8, 0x52u8, 0x58u8, 0x4du8, 0x42u8, 0x54u8, 0x4cu8, 0x00u8]
}

/// The index descriptor: magic, schema version 1, codec 1 (zstd), no flags.
pub open spec fn descriptor_bytes() -> Seq<u8> {
    desc_magic() + spec_u32_to_le_bytes(1) + spec_u32_to_le_bytes(1) + spec_u32_to_le_bytes(0)
}

/// The record that locates a manifest backup, or nothing.
pub open spec fn mb_tlv_bytes(mb: Option<ManifestBackupMeta>) -> Seq<u8> {
    match mb {
        None => Seq::empty(),
        Some(m) => mb_magic() + spec_u64_to_le_bytes(m.off) + spec_u32_to_le_bytes(m.len)
            + spec_u32_to_le_bytes(m.crc32),
    }
}

/// The trailer: magic, where the index payload starts, its length and checksum.
pub open spec fn trailer_bytes(index_off: u64, index_len: u32, crc: u32) -> Seq<u8> {
    trailer_magic() + spec_u64_to_le_bytes(index_off) + spec_u32_to_le_bytes(index_len)
        + spec_u32_to_le_bytes(crc)
}

/// The index payload for compressed entries `compressed`: the descriptor and
/// the frame.
pub open spec fn index_payload(compressed: Seq<u8>) -> Seq<u8> {
    descriptor_bytes() + compressed
}

/// Length of the index payload for compressed entries `compressed`, as the
/// trailer records it.
pub open spec fn index_len_of(compressed: Seq<u8>) -> u32 {
    index_payload(compressed).len() as u32
}

/// Everything that finishing a volume appends at offset `index_off`, for the
/// compressed entries `compressed`: payload, optional backup record, trailer.
pub open spec fn index_section(
    index_off: u64,
    compressed: Seq<u8>,
    mb: Option<ManifestBackupMeta>,
) -> Seq<u8> {
    let payload = index_payload(compressed);
    payload + mb_tlv_bytes(mb) + trailer_bytes(
        index_off,
        index_len_of(compressed),
        crc32_of(payload),
    )
}

/// What a reader makes of the last bytes of a volume: where the index payload
/// starts, its length and its checksum.
pub open spec fn parse_trailer(vol: Seq<u8>) -> Result<(u64, u32, u32), IndexError> {
    if vol.len() < 26 {
        Err(IndexError::TooShort)
    } else {
        let t = vol.subrange(vol.len() - 26, vol.len() as int);
        if t.subrange(0, 10) != trailer_magic() {
            Err(IndexError::BadTrailerMagic)
        } else {
            Ok(
                (
                    spec_u64_from_le_bytes(t.subrange(10, 18)),
                    spec_u32_from_le_bytes(t.subrange(18, 22)),
                    spec_u32_from_le_bytes(t.subrange(22, 26)),
                ),
            )
        }
    }
}

/// The compressed frame inside an index payload: what follows the descriptor
/// where the payload starts with one, else the whole payload.
pub open spec fn payload_frame(payload: Seq<u8>) -> Seq<u8> {
    if payload.len() >= 21 && payload.subrange(0, 9) == desc_magic() {
        payload.subrange(21, payload.len() as int)
    } else {
        payload
    }
}

/// What a reader makes of the entries in a decompressed index, under limits.
pub open spec fn parse_decompressed(raw: Seq<u8>, limits: IndexLimits) -> Result<
    Seq<VolumeEntry>,
    IndexError,
> {
    if raw.len() > limits.max_uncompressed_bytes {
        Err(IndexError::TooLarge)
    } else {
        match parse_index_anyver(raw) {
            None => Err(IndexError::Decode),
            Some(es) => if es.len() > limits.max_entries {
                Err(IndexError::TooManyEntries)
            } else {
                Ok(es)
            },
        }
    }
}

/// What a reader makes of the index that a trailer describes: the checks in
/// the order in which they are made, then the entries.
pub open spec fn parse_index_section(
    vol: Seq<u8>,
    index_off: u64,
    index_len: u32,
    crc: u32,
    limits: IndexLimits,
) -> Result<Seq<VolumeEntry>, IndexError> {
    if index_off + index_len > vol.len() {
        Err(IndexError::OutOfBounds)
    } else {
        let payload = vol.subrange(index_off as int, index_off + index_len);
        if crc32_of(payload) != crc {
            Err(IndexError::CrcMismatch)
        } else {
            match decoded_under(payload_frame(payload), limits.max_uncompressed_bytes) {
                Err(e) => Err(e),
                Ok(raw) => parse_decompressed(raw, limits),
            }
        }
    }
}

fn trailer_magic_bytes() -> (v: Vec<u8>)
    ensures
        v@ == trailer_magic(),
{
    let mut v: Vec<u8> = Vec::new();
    v.push(0x50u8);
    v.push(0x41u8);
    v.push(0x52u8);
    v.push(0x58u8);
    v.push(0x49u8);
    v.push(0x4eu8);
    v.push(0x44u8);
    v.push(0x45u8);
    v.push(0x58u8);
    v.push(0x00u8);
    assert(v@ =~= trailer_magic());
    v
}

fn desc_magic_bytes() -> (v: Vec<u8>)
    ensures
        v@ == desc_magic(),
{
    let mut v: Vec<u8> = Vec::new();
    v.push(0x50u8);
    v.push(0x41u8);
    v.push(0x52u8);
    v.push(0x58u8);
    v.push(0x49u8);
    v.push(0x44u8);
    v.push(0x58u8);
    v.push(0x44u8);
    v.push(0x00u8);
    assert(v@ =~= desc_magic());
    v
}

fn mb_magic_bytes() -> (v: Vec<u8>)
    ensures
        v@ == mb_magic(),
{
    let mut v: Vec<u8> = Vec::new();
    v.push(0x50u8);
    v.push(0x41u8);
    v.push(0x52u8);
    v.push(0x58u8);
    v.push(0x4du8);
    v.push(0x42u8);
    v.push(0x54u8);
    v.push(0x4cu8);
    v.push(0x00u8);
    assert(v@ =~= mb_magic());
    v
}

fn descriptor() -> (v: Vec<u8>)
    ensures
        v@ == descriptor_bytes(),
        v@.len() == 21,
{
    let mut v = desc_magic_bytes();
    let b = u32_to_le_bytes(1);
    extend_bytes(&mut v, b.as_slice());
    let b = u32_to_le_bytes(1);
    extend_bytes(&mut v, b.as_slice());
    let b = u32_to_le_bytes(0);
    extend_bytes(&mut v, b.as_slice());
    v
}

/// The bytes that finish a volume whose length so far is `index_off`, for
/// entries already compressed to `compressed`. Fails with `TooLarge` exactly
/// where descriptor and frame together take more than `u32::MAX` bytes.
pub fn assemble_index_section(
    index_off: u64,
    compressed: &[u8],
    manifest_backup: Option<ManifestBackupMeta>,
) -> (r: Result<Vec<u8>, IndexError>)
    ensures
        match r {
            Ok(section) => 21 + compressed@.len() <= u32::MAX && section@ == index_section(
                index_off,
                compressed@,
                manifest_backup,
            ),
            Err(e) => e == IndexError::TooLarge && 21 + compressed@.len() > u32::MAX,
        },
{
    if compressed.len() > 0xffff_ffff - INDEX_DESC_LEN {
        return Err(IndexError::TooLarge);
    }
    let mut out = descriptor();
    extend_bytes(&mut out, compressed);
    let index_len: u32 = out.len() as u32;
    let crc = crc32(out.as_slice());
    let ghost payload = out@;
    assert(payload == index_payload(compressed@));
    match manifest_backup {
        None => {},
        Some(mb) => {
            let magic = mb_magic_bytes();
            extend_bytes(&mut out, magic.as_slice());
            let b = u64_to_le_bytes(mb.off);
            extend_bytes(&mut out, b.as_slice());
            let b = u32_to_le_bytes(mb.len);
            extend_bytes(&mut out, b.as_slice());
            let b = u32_to_le_bytes(mb.crc32);
            extend_bytes(&mut out, b.as_slice());
        },
    }
    assert(out@ =~= payload + mb_tlv_bytes(manifest_backup));
    let magic = trailer_magic_bytes();
    extend_bytes(&mut out, magic.as_slice());
    let b = u64_to_le_bytes(index_off);
    extend_bytes(&mut out, b.as_slice());
    let b = u32_to_le_bytes(index_len);
    extend_bytes(&mut out, b.as_slice());
    let b = u32_to_le_bytes(crc);
    extend_bytes(&mut out, b.as_slice());
    assert(out@ =~= index_section(index_off, compressed@, manifest_backup));
    Ok(out)
}

/// Reads the trailer at the end of a volume: where the index payload starts,
/// its length and its checksum.
pub fn read_trailer(vol: &[u8]) -> (r: Result<(u64, u32, u32), IndexError>)
    ensures
        r == parse_trailer(vol@),
{
    let flen = vol.len();
    if flen < TRAILER_LEN {
        return Err(IndexError::TooShort);
    }
    let t = slice_subrange(vol, flen - TRAILER_LEN, flen);
    let magic = trailer_magic_bytes();
    if !bytes_at(t, 0, magic.as_slice()) {
        return Err(IndexError::BadTrailerMagic);
    }
    Ok(
        (
            u64_from_le_bytes(slice_subrange(t, 10, 18)),
            u32_from_le_bytes(slice_subrange(t, 18, 22)),
            u32_from_le_bytes(slice_subrange(t, 22, 26)),
        ),
    )
}

/// Decodes a decompressed index under the limits.
pub fn read_decompressed(raw: &[u8], limits: &IndexLimits) -> (r: Result<
    Vec<VolumeEntry>,
    IndexError,
>)
    ensures
        match r {
            Ok(v) => parse_decompressed(raw@, *limits) == Ok::<Seq<VolumeEntry>, IndexError>(v@),
            Err(e) => parse_decompressed(raw@, *limits) == Err::<Seq<VolumeEntry>, IndexError>(e),
        },
{
    if raw.len() > limits.max_uncompressed_bytes {
        return Err(IndexError::TooLarge);
    }
    match decode_entries_anyver(raw) {
        Err(_) => Err(IndexError::Decode),
        Ok(entries) => {
            if entries.len() > limits.max_entries {
                Err(IndexError::TooManyEntries)
            } else {
                Ok(entries)
            }
        },
    }
}

/// Checks the index payload that a trailer describes, decompresses it and
/// decodes its entries under the limits.
pub fn read_index(vol: &[u8], index_off: u64, index_len: u32, crc: u32, limits: &IndexLimits) -> (r:
    Result<Vec<VolumeEntry>, IndexError>)
    ensures
        match r {
            Ok(v) => parse_index_section(vol@, index_off, index_len, crc, *limits) == Ok::<
                Seq<VolumeEntry>,
                IndexError,
            >(v@),
            Err(e) => parse_index_section(vol@, index_off, index_len, crc, *limits) == Err::<
                Seq<VolumeEntry>,
                IndexError,
            >(e),
        },
{
    let flen: u64 = vol.len() as u64;
    if index_off > flen || flen - index_off < index_len as u64 {
        return Err(IndexError::OutOfBounds);
    }
    let start: usize = index_off as usize;
    let end: usize = start + index_len as usize;
    let payload = slice_subrange(vol, start, end);
    if crc32(payload) != crc {
        return Err(IndexError::CrcMismatch);
    }
    let magic = desc_magic_bytes();
    let frame = if payload.len() >= INDEX_DESC_LEN && bytes_at(payload, 0, magic.as_slice()) {
        slice_subrange(payload, INDEX_DESC_LEN, payload.len())
    } else {
        payload
    };
    match decode_under(frame, limits.max_uncompressed_bytes) {
        Err(e) => Err(e),
        Ok(raw) => read_decompressed(raw.as_slice(), limits),
    }
}

/// The number of entries in the index that a trailer describes.
pub fn read_index_count(
    vol: &[u8],
    index_off: u64,
    index_len: u32,
    crc: u32,
    limits: &IndexLimits,
) -> (r: Result<usize, IndexError>)
    ensures
        match r {
            Ok(n) => parse_index_section(vol@, index_off, index_len, crc, *limits) matches Ok(es)
                && es.len() == n,
            Err(e) => parse_index_section(vol@, index_off, index_len, crc, *limits) == Err::<
                Seq<VolumeEntry>,
                IndexError,
            >(e),
        },
{
    match read_index(vol, index_off, index_len, crc, limits) {
        Ok(v) => Ok(v.len()),
        Err(e) => Err(e),
    }
}

/// A volume that ends in the index section for `es`, written at the end of
/// `vol` with a frame `compressed` that decompresses to the bytes of `es`, is
/// read back: the trailer gives the place, length and checksum of the payload,
/// and the index gives `es` wherever the limits admit it.
pub proof fn lemma_index_section_roundtrip(
    vol: Seq<u8>,
    es: Seq<VolumeEntry>,
    compressed: Seq<u8>,
    mb: Option<ManifestBackupMeta>,
    limits: IndexLimits,
)
    requires
        vol.len() <= u64::MAX,
        21 + compressed.len() <= u32::MAX,
        es.len() <= u64::MAX,
        zstd_decoded(compressed) == Some(index_bytes(es, true)),
    ensures
        ({
            let payload = index_payload(compressed);
            let full = vol + index_section(vol.len() as u64, compressed, mb);
            &&& parse_trailer(full) == Ok::<(u64, u32, u32), IndexError>(
                (vol.len() as u64, index_len_of(compressed), crc32_of(payload)),
            )
            &&& parse_index_section(
                full,
                vol.len() as u64,
                index_len_of(compressed),
                crc32_of(payload),
                limits,
            ) == parse_decompressed(index_bytes(es, true), limits)
            &&& index_bytes(es, true).len() <= limits.max_uncompressed_bytes && es.len()
                <= limits.max_entries ==> parse_decompressed(index_bytes(es, true), limits) == Ok::<
                Seq<VolumeEntry>,
                IndexError,
            >(es)
        }),
{
    vstd::bytes::lemma_auto_spec_u32_to_from_le_bytes();
    vstd::bytes::lemma_auto_spec_u64_to_from_le_bytes();
    let off = vol.len() as u64;
    let payload = index_payload(compressed);
    let crc = crc32_of(payload);
    let tlv = mb_tlv_bytes(mb);
    let trailer = trailer_bytes(off, index_len_of(compressed), crc);
    let section = index_section(off, compressed, mb);
    let full = vol + section;
    assert(descriptor_bytes().len() == 21);
    assert(payload.len() == 21 + compressed.len());
    assert(trailer.len() == 26);
    assert(section.len() == payload.len() + tlv.len() + 26);
    let t = full.subrange(full.len() - 26, full.len() as int);
    assert(t =~= trailer);
    assert(t.subrange(0, 10) =~= trailer_magic());
    assert(t.subrange(10, 18) =~= spec_u64_to_le_bytes(off));
    assert(t.subrange(18, 22) =~= spec_u32_to_le_bytes(payload.len() as u32));
    assert(t.subrange(22, 26) =~= spec_u32_to_le_bytes(crc));
    assert(full.subrange(off as int, off + payload.len()) =~= payload);
    assert(payload.subrange(0, 9) =~= desc_magic());
    assert(payload.subrange(21, payload.len() as int) =~= compressed);
    assert(payload_frame(payload) == compressed);
    lemma_index_roundtrip_anyver(es, Seq::empty());
    assert(index_bytes(es, true) + Seq::<u8>::empty() =~= index_bytes(es, true));
}

/// Why bytes cannot be stored compressed in a field that counts `extra` bytes
/// beside them in 32 bits: the compressor gives no frame, or the frame is too
/// long.
pub open spec fn frame_error(data: Seq<u8>, extra: int) -> Option<IndexError> {
    match zstd_compressed(data, 0) {
        None => Some(IndexError::Compression),
        Some(c) => if extra + c.len() > u32::MAX {
            Some(IndexError::TooLarge)
        } else {
            None
        },
    }
}

/// Why the index section for these entries cannot be written, if it cannot.
pub open spec fn index_write_error(entries: Seq<VolumeEntry>) -> Option<IndexError> {
    frame_error(index_bytes(entries, true), 21)
}

/// Why a manifest cannot be stored as a backup, if it cannot.
pub open spec fn backup_error(manifest_json: Seq<u8>) -> Option<IndexError> {
    frame_error(manifest_json, 0)
}

/// Appends the index section for `entries` to a volume: the descriptor, the
/// compressed entries, the record for a manifest backup if one is given, and
/// the trailer. It fails exactly where the compressor gives no frame, or a
/// frame too long for the trailer's length field; the volume is then left as
/// it was.
pub fn write_index_and_trailer(
    vol: &mut Vec<u8>,
    entries: &[VolumeEntry],
    manifest_backup: Option<ManifestBackupMeta>,
) -> (r: Result<(), IndexError>)
    ensures
        match r {
            Ok(_) => {
                let compressed = zstd_frame(index_bytes(entries@, true));
                let payload = index_payload(compressed);
                &&& index_write_error(entries@) is None
                &&& zstd_decoded(compressed) == Some(index_bytes(entries@, true))
                &&& final(vol)@ == old(vol)@ + index_section(
                    old(vol)@.len() as u64,
                    compressed,
                    manifest_backup,
                )
                &&& parse_trailer(final(vol)@) == Ok::<(u64, u32, u32), IndexError>(
                    (old(vol)@.len() as u64, index_len_of(compressed), crc32_of(payload)),
                )
                &&& forall|limits: IndexLimits|
                    index_bytes(entries@, true).len() <= limits.max_uncompressed_bytes
                        && entries@.len() <= limits.max_entries ==> #[trigger] parse_index_section(
                        final(vol)@,
                        old(vol)@.len() as u64,
                        index_len_of(compressed),
                        crc32_of(payload),
                        limits,
                    ) == Ok::<Seq<VolumeEntry>, IndexError>(entries@)
            },
            Err(e) => final(vol)@ == old(vol)@ && index_write_error(entries@) == Some(e),
        },
{
    let raw = encode_entries(entries, true);
    assert(entries@.len() == entries.len());
    match zstd_compress(raw.as_slice(), 0) {
        None => Err(IndexError::Compression),
        Some(compressed) => {
            let index_off: u64 = vol.len() as u64;
            match assemble_index_section(index_off, compressed.as_slice(), manifest_backup) {
                Err(e) => Err(e),
                Ok(section) => {
                    proof {
                        assert forall|limits: IndexLimits|
                            index_bytes(entries@, true).len() <= limits.max_uncompressed_bytes
                                && entries@.len() <= limits.max_entries implies #[trigger] parse_index_section(
                            vol@ + section@,
                            index_off,
                            index_len_of(compressed@),
                            crc32_of(index_payload(compressed@)),
                            limits,
                        ) == Ok::<Seq<VolumeEntry>, IndexError>(entries@) by {
                            lemma_index_section_roundtrip(
                                vol@,
                                entries@,
                                compressed@,
                                manifest_backup,
                                limits,
                            );
                        }
                        lemma_index_section_roundtrip(
                            vol@,
                            entries@,
                            compressed@,
                            manifest_backup,
                            IndexLimits { max_uncompressed_bytes: 0, max_entries: 0 },
                        );
                    }
                    extend_bytes(vol, section.as_slice());
                    Ok(())
                },
            }
        },
    }
}

/// What a reader makes of the bytes right in front of the trailer: the record
/// that locates a manifest backup, where the volume ends in a trailer and
/// holds such a record there.
pub open spec fn parse_manifest_backup_meta(vol: Seq<u8>) -> Option<ManifestBackupMeta> {
    if vol.len() < 26 + 25 {
        None
    } else if vol.subrange(vol.len() - 26, vol.len() - 16) != trailer_magic() {
        None
    } else {
        let t = vol.subrange(vol.len() - 51, vol.len() - 26);
        if t.subrange(0, 9) != mb_magic() {
            None
        } else {
            Some(
                ManifestBackupMeta {
                    off: spec_u64_from_le_bytes(t.subrange(9, 17)),
                    len: spec_u32_from_le_bytes(t.subrange(17, 21)),
                    crc32: spec_u32_from_le_bytes(t.subrange(21, 25)),
                },
            )
        }
    }
}

/// What a reader makes of the manifest backup of a volume: nothing where no
/// record locates one, else the decompressed bytes or the check that failed.
pub open spec fn parse_manifest_backup(vol: Seq<u8>) -> Result<Option<Seq<u8>>, IndexError> {
    match parse_manifest_backup_meta(vol) {
        None => Ok(None),
        Some(m) => if m.off + m.len > vol.len() {
            Err(IndexError::OutOfBounds)
        } else {
            let blob = vol.subrange(m.off as int, m.off + m.len);
            if crc32_of(blob) != m.crc32 {
                Err(IndexError::CrcMismatch)
            } else {
                match zstd_decoded(blob) {
                    None => Err(IndexError::Compression),
                    Some(json) => Ok(Some(json)),
                }
            }
        },
    }
}

/// Reads the record in front of the trailer that locates a manifest backup.
pub fn read_manifest_backup_meta(vol: &[u8]) -> (r: Option<ManifestBackupMeta>)
    ensures
        r == parse_manifest_backup_meta(vol@),
{
    let flen = vol.len();
    if flen < TRAILER_LEN + MB_TLV_LEN {
        return None;
    }
    let magic = trailer_magic_bytes();
    if !bytes_at(vol, flen - TRAILER_LEN, magic.as_slice()) {
        return None;
    }
    let t = slice_subrange(vol, flen - TRAILER_LEN - MB_TLV_LEN, flen - TRAILER_LEN);
    let magic = mb_magic_bytes();
    if !bytes_at(t, 0, magic.as_slice()) {
        return None;
    }
    Some(
        ManifestBackupMeta {
            off: u64_from_le_bytes(slice_subrange(t, 9, 17)),
            len: u32_from_le_bytes(slice_subrange(t, 17, 21)),
            crc32: u32_from_le_bytes(slice_subrange(t, 21, 25)),
        },
    )
}

/// Reads, checks and decompresses the manifest backup of a volume, if it
/// holds one.
pub fn read_manifest_backup_json(vol: &[u8]) -> (r: Result<Option<Vec<u8>>, IndexError>)
    ensures
        match r {
            Ok(Some(json)) => parse_manifest_backup(vol@) == Ok::<Option<Seq<u8>>, IndexError>(
                Some(json@),
            ),
            Ok(None) => parse_manifest_backup(vol@) == Ok::<Option<Seq<u8>>, IndexError>(None),
            Err(e) => parse_manifest_backup(vol@) == Err::<Option<Seq<u8>>, IndexError>(e),
        },
{
    match read_manifest_backup_meta(vol) {
        None => Ok(None),
        Some(m) => {
            let flen: u64 = vol.len() as u64;
            if m.off > flen || flen - m.off < m.len as u64 {
                return Err(IndexError::OutOfBounds);
            }
            let start: usize = m.off as usize;
            let blob = slice_subrange(vol, start, start + m.len as usize);
            if crc32(blob) != m.crc32 {
                return Err(IndexError::CrcMismatch);
            }
            match zstd_decompress(blob) {
                None => Err(IndexError::Compression),
                Some(json) => Ok(Some(json)),
            }
        },
    }
}

/// Appends a compressed manifest to a volume and tells where it lies. Fails
/// with `TooLarge`, leaving the volume as it was, exactly where the blob has
/// more than `u32::MAX` bytes.
pub fn append_blob(vol: &mut Vec<u8>, blob: &[u8]) -> (r: Result<ManifestBackupMeta, IndexError>)
    ensures
        match r {
            Ok(meta) => {
                &&& blob@.len() <= u32::MAX
                &&& final(vol)@ == old(vol)@ + blob@
                &&& meta == (ManifestBackupMeta {
                    off: old(vol)@.len() as u64,
                    len: blob@.len() as u32,
                    crc32: crc32_of(blob@),
                })
            },
            Err(e) => e == IndexError::TooLarge && blob@.len() > u32::MAX && final(vol)@ == old(
                vol,
            )@,
        },
{
    if blob.len() > 0xffff_ffff {
        return Err(IndexError::TooLarge);
    }
    let meta = ManifestBackupMeta {
        off: vol.len() as u64,
        len: blob.len() as u32,
        crc32: crc32(blob),
    };
    extend_bytes(vol, blob);
    Ok(meta)
}

/// Compresses the manifest, appends it to a volume and tells where it lies.
/// It fails exactly where the compressor gives no frame, or one of more than
/// `u32::MAX` bytes; the volume is then left as it was.
pub fn append_manifest_backup(vol: &mut Vec<u8>, manifest_json: &[u8]) -> (r: Result<
    ManifestBackupMeta,
    IndexError,
>)
    ensures
        match r {
            Ok(meta) => {
                let blob = zstd_frame(manifest_json@);
                &&& backup_error(manifest_json@) is None
                &&& zstd_decoded(blob) == Some(manifest_json@)
                &&& final(vol)@ == old(vol)@ + blob
                &&& meta == (ManifestBackupMeta {
                    off: old(vol)@.len() as u64,
                    len: blob.len() as u32,
                    crc32: crc32_of(blob),
                })
            },
            Err(e) => final(vol)@ == old(vol)@ && backup_error(manifest_json@) == Some(e),
        },
{
    match zstd_compress(manifest_json, 0) {
        None => Err(IndexError::Compression),
        Some(blob) => append_blob(vol, blob.as_slice()),
    }
}

/// A volume that holds a manifest backup `blob` at the end of `vol`, then an
/// index section that records the backup, gives the manifest back, provided
/// that `blob` decompresses to it.
pub proof fn lemma_manifest_backup_roundtrip(
    vol: Seq<u8>,
    json: Seq<u8>,
    blob: Seq<u8>,
    compressed: Seq<u8>,
)
    requires
        vol.len() + blob.len() <= u64::MAX,
        blob.len() <= u32::MAX,
        zstd_decoded(blob) == Some(json),
    ensures
        ({
            let meta = ManifestBackupMeta {
                off: vol.len() as u64,
                len: blob.len() as u32,
                crc32: crc32_of(blob),
            };
            let with_blob = vol + blob;
            let full = with_blob + index_section(with_blob.len() as u64, compressed, Some(meta));
            &&& parse_manifest_backup_meta(full) == Some(meta)
            &&& parse_manifest_backup(full) == Ok::<Option<Seq<u8>>, IndexError>(Some(json))
        }),
{
    vstd::bytes::lemma_auto_spec_u32_to_from_le_bytes();
    vstd::bytes::lemma_auto_spec_u64_to_from_le_bytes();
    let meta = ManifestBackupMeta {
        off: vol.len() as u64,
        len: blob.len() as u32,
        crc32: crc32_of(blob),
    };
    let with_blob = vol + blob;
    let off = with_blob.len() as u64;
    let payload = index_payload(compressed);
    let tlv = mb_tlv_bytes(Some(meta));
    let trailer = trailer_bytes(off, index_len_of(compressed), crc32_of(payload));
    let full = with_blob + index_section(off, compressed, Some(meta));
    assert(tlv.len() == 25);
    assert(trailer.len() == 26);
    assert(full.len() == with_blob.len() + payload.len() + 51);
    assert(full.subrange(full.len() - 26, full.len() - 16) =~= trailer_magic());
    let t = full.subrange(full.len() - 51, full.len() - 26);
    assert(t =~= tlv);
    assert(t.subrange(0, 9) =~= mb_magic());
    assert(t.subrange(9, 17) =~= spec_u64_to_le_bytes(meta.off));
    assert(t.subrange(17, 21) =~= spec_u32_to_le_bytes(meta.len));
    assert(t.subrange(21, 25) =~= spec_u32_to_le_bytes(meta.crc32));
    assert(full.subrange(meta.off as int, meta.off + meta.len) =~= blob);
}

/// How the index of a volume was found.
#[derive(Clone, Copy, Debug, PartialEq, Eq, Structural)]
pub enum IndexStatus {
    /// The index was read.
    Read,
    /// The index could not be read, for the reason given.
    Failed(IndexError),
}

/// What a reader that never fails makes of a volume: its entries and status
/// `Read`, or no entry and the failure.
pub open spec fn load_index_spec(vol: Seq<u8>, limits: IndexLimits) -> (Seq<VolumeEntry>, IndexStatus) {
    match parse_trailer(vol) {
        Err(e) => (Seq::empty(), IndexStatus::Failed(e)),
        Ok((off, len, crc)) => match parse_index_section(vol, off, len, crc, limits) {
            Err(e) => (Seq::empty(), IndexStatus::Failed(e)),
            Ok(es) => (es, IndexStatus::Read),
        },
    }
}

/// Locates the index of a volume by its trailer and reads it. A volume whose
/// trailer or index is missing or damaged counts as one without entries; the
/// status says what was wrong.
pub fn load_index(vol: &[u8], limits: &IndexLimits) -> (r: (Vec<VolumeEntry>, IndexStatus))
    ensures
        r.0@ == load_index_spec(vol@, *limits).0,
        r.1 == load_index_spec(vol@, *limits).1,
        r.1 != IndexStatus::Read ==> r.0@.len() == 0,
{
    match read_trailer(vol) {
        Err(e) => (Vec::new(), IndexStatus::Failed(e)),
        Ok((off, len, crc)) => match read_index(vol, off, len, crc, limits) {
            Err(e) => (Vec::new(), IndexStatus::Failed(e)),
            Ok(entries) => (entries, IndexStatus::Read),
        },
    }
}

/// What a reader makes of a volume: the entries of its index, or the first
/// check that fails on the way from the trailer to the entries.
pub open spec fn volume_index(vol: Seq<u8>, limits: IndexLimits) -> Result<
    Seq<VolumeEntry>,
    IndexError,
> {
    match parse_trailer(vol) {
        Err(e) => Err(e),
        Ok((off, len, crc)) => parse_index_section(vol, off, len, crc, limits),
    }
}

/// Reads the index of a volume by way of its trailer.
pub fn open_index(vol: &[u8], limits: &IndexLimits) -> (r: Result<Vec<VolumeEntry>, IndexError>)
    ensures
        match r {
            Ok(v) => volume_index(vol@, *limits) == Ok::<Seq<VolumeEntry>, IndexError>(v@),
            Err(e) => volume_index(vol@, *limits) == Err::<Seq<VolumeEntry>, IndexError>(e),
        },
{
    match read_trailer(vol) {
        Err(e) => Err(e),
        Ok((off, len, crc)) => read_index(vol, off, len, crc, limits),
    }
}

/// A trailer whose checksum is not that of the payload it points at is
/// detected: the reader answers with a checksum mismatch, whatever else the
/// volume holds.
pub proof fn lemma_wrong_crc_is_detected(
    vol: Seq<u8>,
    index_off: u64,
    index_len: u32,
    crc: u32,
    limits: IndexLimits,
)
    requires
        index_off + index_len <= vol.len(),
        crc != crc32_of(vol.subrange(index_off as int, index_off + index_len)),
    ensures
        parse_index_section(vol, index_off, index_len, crc, limits) == Err::<
            Seq<VolumeEntry>,
            IndexError,
        >(IndexError::CrcMismatch),
{
}

/// A volume whose last bytes do not start with the trailer magic gives no
/// entry: the reader that never fails answers with an empty index and says
/// that the magic is wrong.
pub proof fn lemma_wrong_magic_is_detected(vol: Seq<u8>, limits: IndexLimits)
    requires
        vol.len() >= 26,
        vol.subrange(vol.len() - 26, vol.len() - 16) != trailer_magic(),
    ensures
        load_index_spec(vol, limits) == (
            Seq::<VolumeEntry>::empty(),
            IndexStatus::Failed(IndexError::BadTrailerMagic),
        ),
{
    let t = vol.subrange(vol.len() - 26, vol.len() as int);
    assert(t.subrange(0, 10) =~= vol.subrange(vol.len() - 26, vol.len() - 16));
}

/// A change of one byte in the magic or in the checksum of a trailer is
/// detected. Where a volume ends in a trailer that points at a payload in
/// front of it and holds the checksum of that payload, the same volume with
/// one of these bytes changed gives no entry: the reader that never fails
/// answers with an empty index and says which check failed.
pub proof fn lemma_changed_trailer_is_detected(vol: Seq<u8>, p: int, b: u8, limits: IndexLimits)
    requires
        parse_trailer(vol) matches Ok(t) && t.0 + t.1 <= vol.len() - 26 && t.2 == crc32_of(
            vol.subrange(t.0 as int, t.0 + t.1),
        ),
        vol.len() - 26 <= p < vol.len() - 16 || vol.len() - 4 <= p < vol.len(),
        b != vol[p],
    ensures
        load_index_spec(vol.update(p, b), limits).0 == Seq::<VolumeEntry>::empty(),
        p < vol.len() - 16 ==> load_index_spec(vol.update(p, b), limits).1 == IndexStatus::Failed(
            IndexError::BadTrailerMagic,
        ),
        p >= vol.len() - 4 ==> load_index_spec(vol.update(p, b), limits).1 == IndexStatus::Failed(
            IndexError::CrcMismatch,
        ),
{
    let n = vol.len() as int;
    let changed = vol.update(p, b);
    let t = vol.subrange(n - 26, n);
    let u = changed.subrange(n - 26, n);
    let (off, len, crc) = parse_trailer(vol)->Ok_0;
    if p < n - 16 {
        assert(u.subrange(0, 10)[p - (n - 26)] == b);
        assert(t.subrange(0, 10)[p - (n - 26)] == vol[p]);
    } else {
        assert(u.subrange(0, 10) =~= t.subrange(0, 10));
        assert(u.subrange(10, 18) =~= t.subrange(10, 18));
        assert(u.subrange(18, 22) =~= t.subrange(18, 22));
        let c = t.subrange(22, 26);
        let d = u.subrange(22, 26);
        assert(d[p - (n - 4)] == b);
        assert(c[p - (n - 4)] == vol[p]);
        lemma_auto_spec_u32_to_from_le_bytes();
        assert(spec_u32_to_le_bytes(spec_u32_from_le_bytes(c)) == c);
        assert(spec_u32_to_le_bytes(spec_u32_from_le_bytes(d)) == d);
        assert(spec_u32_from_le_bytes(d) != crc);
        assert(changed.subrange(off as int, off + len) =~= vol.subrange(off as int, off + len));
    }
}

} // verus!
