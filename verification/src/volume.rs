//! Parity volumes: file names, the fixed header, and the index entries that
//! describe the shards stored in a volume.

use crate::hash::{extend_bytes, Digest};
use crate::text::{decimal_padded, push_decimal_padded};
use vstd::bytes::{
    spec_u16_from_le_bytes, spec_u16_to_le_bytes, spec_u32_from_le_bytes, spec_u32_to_le_bytes,
    spec_u64_from_le_bytes, spec_u64_to_le_bytes, u16_from_le_bytes, u16_to_le_bytes,
    u32_from_le_bytes, u32_to_le_bytes, u64_from_le_bytes, u64_to_le_bytes,
};
use vstd::prelude::*;
use vstd::slice::slice_subrange;
use vstd::std_specs::convert::FromSpecImpl;

verus! {

/// Stripe value that marks an index entry as an outer parity shard.
pub const OUTER_STRIPE: u32 = 0xFFFF_FFFF;

/// Length of the fixed volume header.
pub const HEADER_LEN: usize = 32;

/// Header record of the earlier volume layout.
#[derive(Clone, Copy, Debug)]
pub struct VolumeHeaderBin {
    pub k: u32,
    pub m: u32,
    pub chunk_size: u32,
    pub total_chunks: u64,
    pub volume_id: u32,
    pub entries_len: u32,
    pub manifest_hash: Digest,
}

/// One shard of a volume. For an inner parity shard `stripe` is the stripe
/// number and `parity_idx` lies below M. For an outer parity shard `stripe` is
/// `OUTER_STRIPE`, `parity_idx` lies below O and `outer_for_stripe` holds the
/// stripe number.
#[derive(Clone, Copy, Debug)]
pub struct VolumeEntry {
    pub stripe: u32,
    pub parity_idx: u16,
    pub offset: u64,
    pub len: u32,
    pub hash: Option<Digest>,
    pub outer_for_stripe: Option<u32>,
}

/// Index entry of the earlier layout, which has no outer parity.
#[derive(Clone, Copy, Debug)]
pub struct VolumeEntryV1 {
    pub stripe: u32,
    pub parity_idx: u16,
    pub offset: u64,
    pub len: u32,
    pub hash: Option<Digest>,
}

impl Default for VolumeEntry {
    fn default() -> (e: VolumeEntry)
        ensures
            e == (VolumeEntry {
                stripe: 0,
                parity_idx: 0,
                offset: 0,
                len: 0,
                hash: None,
                outer_for_stripe: None,
            }),
    {
        VolumeEntry {
            stripe: 0,
            parity_idx: 0,
            offset: 0,
            len: 0,
            hash: None,
            outer_for_stripe: None,
        }
    }
}

/// An entry of the earlier layout read as one of the current layout.
pub open spec fn upgraded(v1: VolumeEntryV1) -> VolumeEntry {
    VolumeEntry {
        stripe: v1.stripe,
        parity_idx: v1.parity_idx,
        offset: v1.offset,
        len: v1.len,
        hash: v1.hash,
        outer_for_stripe: None,
    }
}

impl From<VolumeEntryV1> for VolumeEntry {
    fn from(v1: VolumeEntryV1) -> (e: VolumeEntry) {
        VolumeEntry {
            stripe: v1.stripe,
            parity_idx: v1.parity_idx,
            offset: v1.offset,
            len: v1.len,
            hash: v1.hash,
            outer_for_stripe: None,
        }
    }
}

impl FromSpecImpl<VolumeEntryV1> for VolumeEntry {
    open spec fn obeys_from_spec() -> bool {
        true
    }

    open spec fn from_spec(v1: VolumeEntryV1) -> VolumeEntry {
        upgraded(v1)
    }
}

impl VolumeEntry {
    /// The entry without its outer field.
    pub fn downgraded(&self) -> (v1: VolumeEntryV1)
        ensures
            v1.stripe == self.stripe,
            v1.parity_idx == self.parity_idx,
            v1.offset == self.offset,
            v1.len == self.len,
            v1.hash == self.hash,
    {
        VolumeEntryV1 {
            stripe: self.stripe,
            parity_idx: self.parity_idx,
            offset: self.offset,
            len: self.len,
            hash: self.hash,
        }
    }
}

/// Name of volume `id` while it is written: `vol-NNN.parxv`.
pub open spec fn vol_name_of(id: nat) -> Seq<char> {
    "vol-"@ + decimal_padded(id, 3) + ".parxv"@
}

/// Name of volume `id` once it holds `entries` shards: `vol-NNN+MMM.parxv`.
pub open spec fn final_vol_name_of(id: nat, entries: nat) -> Seq<char> {
    "vol-"@ + decimal_padded(id, 3) + "+"@ + decimal_padded(entries, 3) + ".parxv"@
}

/// Standard file name of volume `id`.
pub fn vol_name(id: usize) -> (name: String)
    ensures
        name@ == vol_name_of(id as nat),
{
    let mut name = String::from_str("vol-");
    push_decimal_padded(&mut name, id, 3);
    name.append(".parxv");
    name
}

/// File name of volume `id` after it was finished with `entries` shards.
pub fn final_vol_name(id: usize, entries: usize) -> (name: String)
    ensures
        name@ == final_vol_name_of(id as nat, entries as nat),
{
    let mut name = String::from_str("vol-");
    push_decimal_padded(&mut name, id, 3);
    name.append("+");
    push_decimal_padded(&mut name, entries, 3);
    name.append(".parxv");
    name
}

/// Why a byte string is no list of index entries.
#[derive(Clone, Copy, Debug, PartialEq, Eq, Structural)]
pub enum DecodeError {
    /// The bytes end before the announced entries do, or an optional field
    /// carries a tag other than 0 and 1.
    Malformed,
}

/// Bytes of an optional digest: one tag byte, then the digest if present.
pub open spec fn opt_hash_bytes(h: Option<Digest>) -> Seq<u8> {
    match h {
        None => seq![0u8],
        Some(d) => seq![1u8] + d@,
    }
}

/// Bytes of an optional stripe number: one tag byte, then four bytes if present.
pub open spec fn opt_u32_bytes(x: Option<u32>) -> Seq<u8> {
    match x {
        None => seq![0u8],
        Some(v) => seq![1u8] + spec_u32_to_le_bytes(v),
    }
}

/// Bytes of the fields that both layouts share.
pub open spec fn entry_base_bytes(e: VolumeEntry) -> Seq<u8> {
    spec_u32_to_le_bytes(e.stripe) + spec_u16_to_le_bytes(e.parity_idx) + spec_u64_to_le_bytes(
        e.offset,
    ) + spec_u32_to_le_bytes(e.len) + opt_hash_bytes(e.hash)
}

/// Bytes of one entry: its fields in order, integers little-endian. The
/// earlier layout (`with_outer` false) ends after the digest.
pub open spec fn entry_bytes(e: VolumeEntry, with_outer: bool) -> Seq<u8> {
    if with_outer {
        entry_base_bytes(e) + opt_u32_bytes(e.outer_for_stripe)
    } else {
        entry_base_bytes(e)
    }
}

/// Bytes of a run of entries, one after the other.
pub open spec fn entries_body(es: Seq<VolumeEntry>, with_outer: bool) -> Seq<u8>
    decreases es.len(),
{
    if es.len() == 0 {
        Seq::empty()
    } else {
        entry_bytes(es[0], with_outer) + entries_body(es.drop_first(), with_outer)
    }
}

/// Bytes of an index: the number of entries as eight bytes, then the entries.
pub open spec fn index_bytes(es: Seq<VolumeEntry>, with_outer: bool) -> Seq<u8> {
    spec_u64_to_le_bytes(es.len() as u64) + entries_body(es, with_outer)
}

/// The digest that holds the given 32 bytes.
pub open spec fn digest_from(s: Seq<u8>) -> Digest {
    choose|d: Digest| d@ == s
}

/// Reads an optional digest at `pos`: the value and the position after it.
pub open spec fn parse_opt_hash(data: Seq<u8>, pos: int) -> Option<(Option<Digest>, int)> {
    if pos < 0 || pos >= data.len() {
        None
    } else if data[pos] == 0 {
        Some((None, pos + 1))
    } else if data[pos] == 1 && pos + 33 <= data.len() {
        Some((Some(digest_from(data.subrange(pos + 1, pos + 33))), pos + 33))
    } else {
        None
    }
}

/// Reads an optional stripe number at `pos`: the value and the position after it.
pub open spec fn parse_opt_u32(data: Seq<u8>, pos: int) -> Option<(Option<u32>, int)> {
    if pos < 0 || pos >= data.len() {
        None
    } else if data[pos] == 0 {
        Some((None, pos + 1))
    } else if data[pos] == 1 && pos + 5 <= data.len() {
        Some((Some(spec_u32_from_le_bytes(data.subrange(pos + 1, pos + 5))), pos + 5))
    } else {
        None
    }
}

/// Reads one entry at `pos`: the entry and the position after it.
pub open spec fn parse_entry(data: Seq<u8>, pos: int, with_outer: bool) -> Option<
    (VolumeEntry, int),
> {
    if pos < 0 || pos + 18 > data.len() {
        None
    } else {
        match parse_opt_hash(data, pos + 18) {
            None => None,
            Some((hash, after_hash)) => {
                let stripe = spec_u32_from_le_bytes(data.subrange(pos, pos + 4));
                let parity_idx = spec_u16_from_le_bytes(data.subrange(pos + 4, pos + 6));
                let offset = spec_u64_from_le_bytes(data.subrange(pos + 6, pos + 14));
                let len = spec_u32_from_le_bytes(data.subrange(pos + 14, pos + 18));
                if with_outer {
                    match parse_opt_u32(data, after_hash) {
                        None => None,
                        Some((outer_for_stripe, end)) => Some(
                            (
                                VolumeEntry {
                                    stripe,
                                    parity_idx,
                                    offset,
                                    len,
                                    hash,
                                    outer_for_stripe,
                                },
                                end,
                            ),
                        ),
                    }
                } else {
                    Some(
                        (
                            VolumeEntry {
                                stripe,
                                parity_idx,
                                offset,
                                len,
                                hash,
                                outer_for_stripe: None,
                            },
                            after_hash,
                        ),
                    )
                }
            },
        }
    }
}

/// Reads `count` entries from `pos` on.
pub open spec fn parse_entries(data: Seq<u8>, pos: int, count: nat, with_outer: bool) -> Option<
    Seq<VolumeEntry>,
>
    decreases count,
{
    if count == 0 {
        Some(Seq::empty())
    } else {
        match parse_entry(data, pos, with_outer) {
            None => None,
            Some((e, next)) => match parse_entries(data, next, (count - 1) as nat, with_outer) {
                None => None,
                Some(rest) => Some(seq![e] + rest),
            },
        }
    }
}

/// Reads an index: a count of eight bytes and that many entries. Bytes after
/// the last entry are ignored.
pub open spec fn parse_index(data: Seq<u8>, with_outer: bool) -> Option<Seq<VolumeEntry>> {
    if data.len() < 8 {
        None
    } else {
        parse_entries(
            data,
            8,
            spec_u64_from_le_bytes(data.subrange(0, 8)) as nat,
            with_outer,
        )
    }
}

/// What a reader that accepts both layouts makes of `data`: the current
/// layout where it parses, else the earlier layout.
pub open spec fn parse_index_anyver(data: Seq<u8>) -> Option<Seq<VolumeEntry>> {
    match parse_index(data, true) {
        Some(es) => Some(es),
        None => parse_index(data, false),
    }
}

fn push_opt_hash(buf: &mut Vec<u8>, h: &Option<Digest>)
    ensures
        final(buf)@ == old(buf)@ + opt_hash_bytes(*h),
{
    let ghost before = buf@;
    match h {
        None => {
            buf.push(0u8);
            assert(buf@ =~= before + opt_hash_bytes(*h));
        },
        Some(d) => {
            buf.push(1u8);
            extend_bytes(buf, d.as_slice());
            assert(buf@ =~= before + opt_hash_bytes(*h));
        },
    }
}

fn push_opt_u32(buf: &mut Vec<u8>, x: Option<u32>)
    ensures
        final(buf)@ == old(buf)@ + opt_u32_bytes(x),
{
    let ghost before = buf@;
    match x {
        None => {
            buf.push(0u8);
            assert(buf@ =~= before + opt_u32_bytes(x));
        },
        Some(v) => {
            buf.push(1u8);
            let b = u32_to_le_bytes(v);
            extend_bytes(buf, b.as_slice());
            assert(buf@ =~= before + opt_u32_bytes(x));
        },
    }
}

fn push_entry(buf: &mut Vec<u8>, e: &VolumeEntry, with_outer: bool)
    ensures
        final(buf)@ == old(buf)@ + entry_bytes(*e, with_outer),
{
    let ghost before = buf@;
    let b0 = u32_to_le_bytes(e.stripe);
    extend_bytes(buf, b0.as_slice());
    let b1 = u16_to_le_bytes(e.parity_idx);
    extend_bytes(buf, b1.as_slice());
    let b2 = u64_to_le_bytes(e.offset);
    extend_bytes(buf, b2.as_slice());
    let b3 = u32_to_le_bytes(e.len);
    extend_bytes(buf, b3.as_slice());
    push_opt_hash(buf, &e.hash);
    assert(buf@ =~= before + entry_base_bytes(*e));
    if with_outer {
        push_opt_u32(buf, e.outer_for_stripe);
        assert(buf@ =~= before + entry_bytes(*e, with_outer));
    }
}

/// The body of a run of entries grows at its end by the bytes of the entry added.
proof fn lemma_entries_body_push(es: Seq<VolumeEntry>, e: VolumeEntry, with_outer: bool)
    ensures
        entries_body(es.push(e), with_outer) == entries_body(es, with_outer) + entry_bytes(
            e,
            with_outer,
        ),
    decreases es.len(),
{
    if es.len() == 0 {
        assert(es.push(e).drop_first() =~= Seq::<VolumeEntry>::empty());
        assert(entries_body(es.push(e).drop_first(), with_outer) =~= Seq::<u8>::empty());
        assert(entries_body(es.push(e), with_outer) =~= entry_bytes(e, with_outer));
        assert(entries_body(es, with_outer) + entry_bytes(e, with_outer) =~= entry_bytes(
            e,
            with_outer,
        ));
    } else {
        assert(es.push(e).drop_first() =~= es.drop_first().push(e));
        lemma_entries_body_push(es.drop_first(), e, with_outer);
        assert(entries_body(es.push(e), with_outer) =~= entries_body(es, with_outer)
            + entry_bytes(e, with_outer));
    }
}

/// Bytes of the index that lists `entries`, in the current layout or the
/// earlier one.
pub fn encode_entries(entries: &[VolumeEntry], with_outer: bool) -> (buf: Vec<u8>)
    ensures
        buf@ == index_bytes(entries@, with_outer),
{
    let mut buf: Vec<u8> = u64_to_le_bytes(entries.len() as u64);
    let mut i: usize = 0;
    while i < entries.len()
        invariant
            i <= entries.len(),
            buf@ == spec_u64_to_le_bytes(entries@.len() as u64) + entries_body(
                entries@.take(i as int),
                with_outer,
            ),
        decreases entries.len() - i,
    {
        let ghost before = buf@;
        push_entry(&mut buf, &entries[i], with_outer);
        proof {
            lemma_entries_body_push(entries@.take(i as int), entries@[i as int], with_outer);
            assert(entries@.take(i as int).push(entries@[i as int]) =~= entries@.take(i + 1));
            assert(buf@ =~= spec_u64_to_le_bytes(entries@.len() as u64) + entries_body(
                entries@.take(i + 1),
                with_outer,
            ));
        }
        i += 1;
    }
    assert(entries@.take(i as int) =~= entries@);
    buf
}

fn copy_digest(data: &[u8], pos: usize) -> (d: Digest)
    requires
        pos + 32 <= data.len(),
    ensures
        d@ == data@.subrange(pos as int, pos + 32),
{
    let mut d: Digest = [0u8;32];
    let mut i: usize = 0;
    while i < 32
        invariant
            i <= 32,
            pos + 32 <= data.len(),
            forall|j: int| 0 <= j < i ==> d@[j] == data@[pos + j],
        decreases 32 - i,
    {
        d[i] = data[pos + i];
        i += 1;
    }
    assert(d@ =~= data@.subrange(pos as int, pos + 32));
    d
}

fn read_opt_hash(data: &[u8], pos: usize) -> (r: Option<(Option<Digest>, usize)>)
    ensures
        match r {
            Some((h, next)) => parse_opt_hash(data@, pos as int) == Some((h, next as int)),
            None => parse_opt_hash(data@, pos as int) is None,
        },
{
    if pos >= data.len() {
        return None;
    }
    let tag: u8 = data[pos];
    if tag == 0 {
        Some((None, pos + 1))
    } else if tag == 1 && data.len() - pos >= 33 {
        let d = copy_digest(data, pos + 1);
        proof {
            let s = data@.subrange(pos + 1, pos + 33);
            assert(d@ == s);
            let c = digest_from(s);
            assert(c@ == s);
            assert(c@ =~= d@);
            assert(c == d);
        }
        Some((Some(d), pos + 33))
    } else {
        None
    }
}

fn read_opt_u32(data: &[u8], pos: usize) -> (r: Option<(Option<u32>, usize)>)
    ensures
        match r {
            Some((x, next)) => parse_opt_u32(data@, pos as int) == Some((x, next as int)),
            None => parse_opt_u32(data@, pos as int) is None,
        },
{
    if pos >= data.len() {
        return None;
    }
    let tag: u8 = data[pos];
    if tag == 0 {
        Some((None, pos + 1))
    } else if tag == 1 && data.len() - pos >= 5 {
        let v = u32_from_le_bytes(slice_subrange(data, pos + 1, pos + 5));
        Some((Some(v), pos + 5))
    } else {
        None
    }
}

fn read_entry(data: &[u8], pos: usize, with_outer: bool) -> (r: Option<(VolumeEntry, usize)>)
    ensures
        match r {
            Some((e, next)) => parse_entry(data@, pos as int, with_outer) == Some(
                (e, next as int),
            ) && pos < next <= data.len(),
            None => parse_entry(data@, pos as int, with_outer) is None,
        },
{
    if pos > data.len() || data.len() - pos < 18 {
        return None;
    }
    let stripe = u32_from_le_bytes(slice_subrange(data, pos, pos + 4));
    let parity_idx = u16_from_le_bytes(slice_subrange(data, pos + 4, pos + 6));
    let offset = u64_from_le_bytes(slice_subrange(data, pos + 6, pos + 14));
    let len = u32_from_le_bytes(slice_subrange(data, pos + 14, pos + 18));
    match read_opt_hash(data, pos + 18) {
        None => None,
        Some((hash, after_hash)) => {
            if with_outer {
                match read_opt_u32(data, after_hash) {
                    None => None,
                    Some((outer_for_stripe, end)) => Some(
                        (
                            VolumeEntry { stripe, parity_idx, offset, len, hash, outer_for_stripe },
                            end,
                        ),
                    ),
                }
            } else {
                Some(
                    (
                        VolumeEntry {
                            stripe,
                            parity_idx,
                            offset,
                            len,
                            hash,
                            outer_for_stripe: None,
                        },
                        after_hash,
                    ),
                )
            }
        },
    }
}

/// Reads an index in the current layout (`with_outer`) or the earlier one.
pub fn decode_entries(data: &[u8], with_outer: bool) -> (r: Result<Vec<VolumeEntry>, DecodeError>)
    ensures
        match r {
            Ok(v) => parse_index(data@, with_outer) == Some(v@),
            Err(_) => parse_index(data@, with_outer) is None,
        },
{
    if data.len() < 8 {
        return Err(DecodeError::Malformed);
    }
    let count: u64 = u64_from_le_bytes(slice_subrange(data, 0, 8));
    let mut out: Vec<VolumeEntry> = Vec::new();
    let mut pos: usize = 8;
    let mut i: u64 = 0;
    while i < count
        invariant
            i <= count,
            8 <= pos <= data.len(),
            count == spec_u64_from_le_bytes(data@.subrange(0, 8)),
            out@.len() == i,
            parse_entries(data@, 8, count as nat, with_outer) == (match parse_entries(
                data@,
                pos as int,
                (count - i) as nat,
                with_outer,
            ) {
                None => None,
                Some(rest) => Some(out@ + rest),
            }),
        decreases count - i,
    {
        match read_entry(data, pos, with_outer) {
            None => {
                return Err(DecodeError::Malformed);
            },
            Some((e, next)) => {
                proof {
                    let rest = parse_entries(data@, next as int, (count - i - 1) as nat, with_outer);
                    if rest is Some {
                        assert(out@ + (seq![e] + rest->0) =~= out@.push(e) + rest->0);
                    }
                }
                out.push(e);
                pos = next;
                i += 1;
            },
        }
    }
    proof {
        assert(out@ + Seq::<VolumeEntry>::empty() =~= out@);
    }
    Ok(out)
}

/// Reads an index in the earlier layout.
pub fn decode_entries_v1(data: &[u8]) -> (r: Result<Vec<VolumeEntryV1>, DecodeError>)
    ensures
        match r {
            Ok(v) => parse_index(data@, false) == Some(Seq::new(v@.len(), |i: int| upgraded(v@[i]))),
            Err(_) => parse_index(data@, false) is None,
        },
{
    match decode_entries(data, false) {
        Err(e) => Err(e),
        Ok(es) => {
            let mut out: Vec<VolumeEntryV1> = Vec::new();
            let mut i: usize = 0;
            proof {
                lemma_parse_index_no_outer(data@);
            }
            while i < es.len()
                invariant
                    i <= es.len(),
                    out@.len() == i,
                    forall|j: int| 0 <= j < es.len() ==> (#[trigger] es@[j]).outer_for_stripe is None,
                    forall|j: int| 0 <= j < i ==> upgraded(#[trigger] out@[j]) == es@[j],
                decreases es.len() - i,
            {
                out.push(es[i].downgraded());
                i += 1;
            }
            assert(es@ =~= Seq::new(out@.len(), |i: int| upgraded(out@[i])));
            Ok(out)
        },
    }
}

/// Entries read in the earlier layout carry no outer field.
proof fn lemma_parse_entries_no_outer(data: Seq<u8>, pos: int, count: nat)
    ensures
        parse_entries(data, pos, count, false) matches Some(es) ==> forall|j: int|
            0 <= j < es.len() ==> (#[trigger] es[j]).outer_for_stripe is None,
    decreases count,
{
    if count > 0 {
        match parse_entry(data, pos, false) {
            None => {},
            Some((e, next)) => {
                lemma_parse_entries_no_outer(data, next, (count - 1) as nat);
            },
        }
    }
}

/// An index read in the earlier layout carries no outer field.
proof fn lemma_parse_index_no_outer(data: Seq<u8>)
    ensures
        parse_index(data, false) matches Some(es) ==> forall|j: int|
            0 <= j < es.len() ==> (#[trigger] es[j]).outer_for_stripe is None,
{
    if data.len() >= 8 {
        lemma_parse_entries_no_outer(
            data,
            8,
            spec_u64_from_le_bytes(data.subrange(0, 8)) as nat,
        );
    }
}

/// Reads an index in the current layout and, where that fails, in the earlier
/// one, whose entries are then upgraded.
pub fn decode_entries_anyver(data: &[u8]) -> (r: Result<Vec<VolumeEntry>, DecodeError>)
    ensures
        match r {
            Ok(v) => parse_index_anyver(data@) == Some(v@),
            Err(_) => parse_index_anyver(data@) is None,
        },
{
    match decode_entries(data, true) {
        Ok(v2) => Ok(v2),
        Err(_) => {
            match decode_entries_v1(data) {
                Err(e) => Err(e),
                Ok(v1s) => {
                    let mut out: Vec<VolumeEntry> = Vec::new();
                    let mut i: usize = 0;
                    while i < v1s.len()
                        invariant
                            i <= v1s.len(),
                            out@.len() == i,
                            forall|j: int| 0 <= j < i ==> #[trigger] out@[j] == upgraded(v1s@[j]),
                        decreases v1s.len() - i,
                    {
                        out.push(VolumeEntry::from(v1s[i]));
                        i += 1;
                    }
                    assert(out@ =~= Seq::new(v1s@.len(), |i: int| upgraded(v1s@[i])));
                    Ok(out)
                },
            }
        },
    }
}

/// Number of bytes that an entry takes.
pub open spec fn entry_len(e: VolumeEntry, with_outer: bool) -> int {
    18 + (if e.hash is Some {
        33int
    } else {
        1int
    }) + (if !with_outer {
        0int
    } else if e.outer_for_stripe is Some {
        5int
    } else {
        1int
    })
}

proof fn lemma_entry_len(e: VolumeEntry, with_outer: bool)
    ensures
        entry_bytes(e, with_outer).len() == entry_len(e, with_outer),
        entry_base_bytes(e).len() == entry_len(e, false),
{
    vstd::bytes::lemma_auto_spec_u16_to_from_le_bytes();
    vstd::bytes::lemma_auto_spec_u32_to_from_le_bytes();
    vstd::bytes::lemma_auto_spec_u64_to_from_le_bytes();
}

/// Where the bytes of an entry stand in `data` at `pos`, reading at `pos`
/// gives that entry back and ends right after it.
proof fn lemma_parse_entry_at(data: Seq<u8>, pos: int, e: VolumeEntry, with_outer: bool)
    requires
        0 <= pos,
        pos + entry_len(e, with_outer) <= data.len(),
        data.subrange(pos, pos + entry_len(e, with_outer)) == entry_bytes(e, with_outer),
        !with_outer ==> e.outer_for_stripe is None,
    ensures
        parse_entry(data, pos, with_outer) == Some((e, pos + entry_len(e, with_outer))),
{
    vstd::bytes::lemma_auto_spec_u16_to_from_le_bytes();
    vstd::bytes::lemma_auto_spec_u32_to_from_le_bytes();
    vstd::bytes::lemma_auto_spec_u64_to_from_le_bytes();
    lemma_entry_len(e, with_outer);
    let eb = entry_bytes(e, with_outer);
    let n = entry_len(e, with_outer);
    assert forall|j: int| 0 <= j < n implies data[pos + j] == eb[j] by {
        assert(data.subrange(pos, pos + n)[j] == data[pos + j]);
    }
    assert(data.subrange(pos, pos + 4) =~= spec_u32_to_le_bytes(e.stripe)) by {
        assert forall|j: int| 0 <= j < 4 implies data.subrange(pos, pos + 4)[j]
            == spec_u32_to_le_bytes(e.stripe)[j] by {
            assert(eb[j] == spec_u32_to_le_bytes(e.stripe)[j]);
        }
    }
    assert(data.subrange(pos + 4, pos + 6) =~= spec_u16_to_le_bytes(e.parity_idx)) by {
        assert forall|j: int| 0 <= j < 2 implies data.subrange(pos + 4, pos + 6)[j]
            == spec_u16_to_le_bytes(e.parity_idx)[j] by {
            assert(eb[4 + j] == spec_u16_to_le_bytes(e.parity_idx)[j]);
        }
    }
    assert(data.subrange(pos + 6, pos + 14) =~= spec_u64_to_le_bytes(e.offset)) by {
        assert forall|j: int| 0 <= j < 8 implies data.subrange(pos + 6, pos + 14)[j]
            == spec_u64_to_le_bytes(e.offset)[j] by {
            assert(eb[6 + j] == spec_u64_to_le_bytes(e.offset)[j]);
        }
    }
    assert(data.subrange(pos + 14, pos + 18) =~= spec_u32_to_le_bytes(e.len)) by {
        assert forall|j: int| 0 <= j < 4 implies data.subrange(pos + 14, pos + 18)[j]
            == spec_u32_to_le_bytes(e.len)[j] by {
            assert(eb[14 + j] == spec_u32_to_le_bytes(e.len)[j]);
        }
    }
    let hb = opt_hash_bytes(e.hash);
    assert forall|j: int| 0 <= j < hb.len() implies data[pos + 18 + j] == hb[j] by {
        assert(eb[18 + j] == hb[j]);
    }
    let after_hash = pos + 18 + hb.len();
    match e.hash {
        None => {
            assert(hb[0] == 0u8);
            assert(parse_opt_hash(data, pos + 18) == Some((e.hash, after_hash)));
        },
        Some(d) => {
            assert(hb[0] == 1u8);
            let s = data.subrange(pos + 19, pos + 51);
            assert(s =~= d@) by {
                assert forall|j: int| 0 <= j < 32 implies s[j] == d@[j] by {
                    assert(hb[1 + j] == d@[j]);
                }
            }
            let c = digest_from(s);
            assert(c@ == s);
            assert(c@ =~= d@);
            assert(c == d);
            assert(parse_opt_hash(data, pos + 18) == Some((e.hash, after_hash)));
        },
    }
    if with_outer {
        let ob = opt_u32_bytes(e.outer_for_stripe);
        assert forall|j: int| 0 <= j < ob.len() implies data[after_hash + j] == ob[j] by {
            assert(eb[18 + hb.len() + j] == ob[j]);
        }
        match e.outer_for_stripe {
            None => {
                assert(ob[0] == 0u8);
            },
            Some(v) => {
                assert(ob[0] == 1u8);
                assert(data.subrange(after_hash + 1, after_hash + 5) =~= spec_u32_to_le_bytes(v))
                    by {
                    assert forall|j: int| 0 <= j < 4 implies data.subrange(
                        after_hash + 1,
                        after_hash + 5,
                    )[j] == spec_u32_to_le_bytes(v)[j] by {
                        assert(ob[1 + j] == spec_u32_to_le_bytes(v)[j]);
                    }
                }
            },
        }
        assert(parse_opt_u32(data, after_hash) == Some(
            (e.outer_for_stripe, pos + entry_len(e, with_outer)),
        ));
    }
}

/// Where the bytes of a run of entries stand in `data` at `pos`, reading that
/// many entries at `pos` gives the run back.
proof fn lemma_parse_entries_at(data: Seq<u8>, pos: int, es: Seq<VolumeEntry>, with_outer: bool)
    requires
        0 <= pos,
        pos + entries_body(es, with_outer).len() <= data.len(),
        data.subrange(pos, pos + entries_body(es, with_outer).len()) == entries_body(
            es,
            with_outer,
        ),
        !with_outer ==> forall|j: int| 0 <= j < es.len() ==> (#[trigger] es[j]).outer_for_stripe is None,
    ensures
        parse_entries(data, pos, es.len(), with_outer) == Some(es),
    decreases es.len(),
{
    if es.len() == 0 {
        assert(es =~= Seq::<VolumeEntry>::empty());
    } else {
        let e = es[0];
        let rest = es.drop_first();
        let eb = entry_bytes(e, with_outer);
        let body = entries_body(es, with_outer);
        let rb = entries_body(rest, with_outer);
        lemma_entry_len(e, with_outer);
        assert(body == eb + rb);
        let n = entry_len(e, with_outer);
        assert(data.subrange(pos, pos + n) =~= eb) by {
            assert forall|j: int| 0 <= j < n implies data.subrange(pos, pos + n)[j] == eb[j] by {
                assert(data.subrange(pos, pos + body.len())[j] == body[j]);
            }
        }
        assert(data.subrange(pos + n, pos + n + rb.len()) =~= rb) by {
            assert forall|j: int| 0 <= j < rb.len() implies data.subrange(
                pos + n,
                pos + n + rb.len(),
            )[j] == rb[j] by {
                assert(data.subrange(pos, pos + body.len())[n + j] == body[n + j]);
            }
        }
        lemma_parse_entry_at(data, pos, e, with_outer);
        if !with_outer {
            assert forall|j: int| 0 <= j < rest.len() implies (
            #[trigger] rest[j]).outer_for_stripe is None by {
                assert(rest[j] == es[j + 1]);
            }
        }
        lemma_parse_entries_at(data, pos + n, rest, with_outer);
        assert(seq![e] + rest =~= es);
    }
}

/// Reading what was written gives the entries back, whatever bytes follow.
/// In the earlier layout this holds of entries without an outer field.
pub proof fn lemma_index_roundtrip(es: Seq<VolumeEntry>, with_outer: bool, tail: Seq<u8>)
    requires
        es.len() <= u64::MAX,
        !with_outer ==> forall|j: int| 0 <= j < es.len() ==> (#[trigger] es[j]).outer_for_stripe is None,
    ensures
        parse_index(index_bytes(es, with_outer) + tail, with_outer) == Some(es),
{
    vstd::bytes::lemma_auto_spec_u64_to_from_le_bytes();
    let data = index_bytes(es, with_outer) + tail;
    let body = entries_body(es, with_outer);
    let head = spec_u64_to_le_bytes(es.len() as u64);
    assert(data.subrange(0, 8) =~= head);
    assert(data.subrange(8, 8 + body.len() as int) =~= body);
    lemma_parse_entries_at(data, 8, es, with_outer);
}

/// A reader of both layouts gives back what was written in the current one.
pub proof fn lemma_index_roundtrip_anyver(es: Seq<VolumeEntry>, tail: Seq<u8>)
    requires
        es.len() <= u64::MAX,
    ensures
        parse_index_anyver(index_bytes(es, true) + tail) == Some(es),
{
    lemma_index_roundtrip(es, true, tail);
}

/// Why the start of a file is no volume header.
#[derive(Clone, Copy, Debug, PartialEq, Eq, Structural)]
pub enum HeaderError {
    /// The file ends before the header does.
    TooShort,
    /// The first bytes are not the magic of the layout asked for.
    BadMagic,
    /// The header names a version or a length that this reader does not know.
    Unsupported,
}

/// The fixed header at the start of a volume.
#[derive(Clone, Copy, Debug, PartialEq, Eq, Structural)]
pub struct VolumeHeader {
    pub k: u32,
    pub m: u32,
    pub entries_len: u32,
    pub header_version: u32,
    pub header_len: u32,
    pub feature_flags: u32,
}

/// The eight bytes `PARXVOL` and NUL that open a volume.
pub open spec fn volume_magic() -> Seq<u8> {
    seq![0x50u8, 0x41u8, 0x52u8, 0x58u8, 0x56u8, 0x4fu8, 0x4cu8, 0x00u8]
}

/// The seven bytes `PARXBV` and a digit that open a volume of an earlier
/// layout.
pub open spec fn legacy_magic(v2: bool) -> Seq<u8> {
    seq![
        0x50u8,
        0x41u8,
        0x52u8,
        0x58u8,
        0x42u8,
        0x56u8,
        if v2 {
            0x32u8
        } else {
            0x31u8
        },
    ]
}

/// The 32 header bytes of a volume with `entries` shards: magic, K, M, the
/// number of entries, version 1, length 32 and no feature flags.
pub open spec fn header_bytes(k: u32, m: u32, entries: u32) -> Seq<u8> {
    volume_magic() + spec_u32_to_le_bytes(k) + spec_u32_to_le_bytes(m) + spec_u32_to_le_bytes(
        entries,
    ) + spec_u32_to_le_bytes(1) + spec_u32_to_le_bytes(32) + spec_u32_to_le_bytes(0)
}

/// What a reader makes of the start of a volume.
pub open spec fn parse_header(data: Seq<u8>) -> Result<VolumeHeader, HeaderError> {
    if data.len() < 32 {
        Err(HeaderError::TooShort)
    } else if data.subrange(0, 8) != volume_magic() {
        Err(HeaderError::BadMagic)
    } else {
        let h = VolumeHeader {
            k: spec_u32_from_le_bytes(data.subrange(8, 12)),
            m: spec_u32_from_le_bytes(data.subrange(12, 16)),
            entries_len: spec_u32_from_le_bytes(data.subrange(16, 20)),
            header_version: spec_u32_from_le_bytes(data.subrange(20, 24)),
            header_len: spec_u32_from_le_bytes(data.subrange(24, 28)),
            feature_flags: spec_u32_from_le_bytes(data.subrange(28, 32)),
        };
        if h.header_version != 1 || h.header_len != 32 {
            Err(HeaderError::Unsupported)
        } else {
            Ok(h)
        }
    }
}

fn magic_bytes() -> (v: Vec<u8>)
    ensures
        v@ == volume_magic(),
{
    let mut v: Vec<u8> = Vec::new();
    v.push(0x50u8);
    v.push(0x41u8);
    v.push(0x52u8);
    v.push(0x58u8);
    v.push(0x56u8);
    v.push(0x4fu8);
    v.push(0x4cu8);
    v.push(0x00u8);
    assert(v@ =~= volume_magic());
    v
}

/// Whether `data` holds `pattern` at `pos`.
pub(crate) fn bytes_at(data: &[u8], pos: usize, pattern: &[u8]) -> (b: bool)
    requires
        pos + pattern.len() <= data.len(),
    ensures
        b == (data@.subrange(pos as int, pos + pattern.len()) == pattern@),
{
    let mut i: usize = 0;
    while i < pattern.len()
        invariant
            i <= pattern.len(),
            pos + pattern.len() <= data.len(),
            forall|j: int| 0 <= j < i ==> data@[pos + j] == pattern@[j],
        decreases pattern.len() - i,
    {
        if data[pos + i] != pattern[i] {
            assert(data@.subrange(pos as int, pos + pattern.len())[i as int] != pattern@[i as int]);
            return false;
        }
        i += 1;
    }
    assert(data@.subrange(pos as int, pos + pattern.len()) =~= pattern@);
    true
}

/// The header of a volume that holds `entries` shards of a code with K data
/// and M parity shards.
pub fn simple_header(k: u32, m: u32, entries: u32) -> (buf: Vec<u8>)
    ensures
        buf@ == header_bytes(k, m, entries),
        buf@.len() == 32,
{
    let mut buf = magic_bytes();
    let b = u32_to_le_bytes(k);
    extend_bytes(&mut buf, b.as_slice());
    let b = u32_to_le_bytes(m);
    extend_bytes(&mut buf, b.as_slice());
    let b = u32_to_le_bytes(entries);
    extend_bytes(&mut buf, b.as_slice());
    let b = u32_to_le_bytes(1);
    extend_bytes(&mut buf, b.as_slice());
    let b = u32_to_le_bytes(32);
    extend_bytes(&mut buf, b.as_slice());
    let b = u32_to_le_bytes(0);
    extend_bytes(&mut buf, b.as_slice());
    buf
}

/// Reads the fixed header at the start of a volume.
pub fn read_header(data: &[u8]) -> (r: Result<VolumeHeader, HeaderError>)
    ensures
        r == parse_header(data@),
{
    if data.len() < HEADER_LEN {
        return Err(HeaderError::TooShort);
    }
    let magic = magic_bytes();
    if !bytes_at(data, 0, magic.as_slice()) {
        return Err(HeaderError::BadMagic);
    }
    let h = VolumeHeader {
        k: u32_from_le_bytes(slice_subrange(data, 8, 12)),
        m: u32_from_le_bytes(slice_subrange(data, 12, 16)),
        entries_len: u32_from_le_bytes(slice_subrange(data, 16, 20)),
        header_version: u32_from_le_bytes(slice_subrange(data, 20, 24)),
        header_len: u32_from_le_bytes(slice_subrange(data, 24, 28)),
        feature_flags: u32_from_le_bytes(slice_subrange(data, 28, 32)),
    };
    if h.header_version != 1 || h.header_len != 32 {
        Err(HeaderError::Unsupported)
    } else {
        Ok(h)
    }
}

/// A header that was written is read back, whatever follows it.
pub proof fn lemma_header_roundtrip(k: u32, m: u32, entries: u32, tail: Seq<u8>)
    ensures
        header_bytes(k, m, entries).len() == 32,
        parse_header(header_bytes(k, m, entries) + tail) == Ok::<VolumeHeader, HeaderError>(
            VolumeHeader {
                k,
                m,
                entries_len: entries,
                header_version: 1,
                header_len: 32,
                feature_flags: 0,
            },
        ),
{
    vstd::bytes::lemma_auto_spec_u32_to_from_le_bytes();
    let data = header_bytes(k, m, entries) + tail;
    assert(data.subrange(0, 8) =~= volume_magic());
    assert(data.subrange(8, 12) =~= spec_u32_to_le_bytes(k));
    assert(data.subrange(12, 16) =~= spec_u32_to_le_bytes(m));
    assert(data.subrange(16, 20) =~= spec_u32_to_le_bytes(entries));
    assert(data.subrange(20, 24) =~= spec_u32_to_le_bytes(1));
    assert(data.subrange(24, 28) =~= spec_u32_to_le_bytes(32));
    assert(data.subrange(28, 32) =~= spec_u32_to_le_bytes(0));
}

/// The 60 bytes of a header record of the earlier layout: its fields in
/// order, integers little-endian.
pub open spec fn header_bin_bytes(h: VolumeHeaderBin) -> Seq<u8> {
    spec_u32_to_le_bytes(h.k) + spec_u32_to_le_bytes(h.m) + spec_u32_to_le_bytes(h.chunk_size)
        + spec_u64_to_le_bytes(h.total_chunks) + spec_u32_to_le_bytes(h.volume_id)
        + spec_u32_to_le_bytes(h.entries_len) + h.manifest_hash@
}

/// What a reader makes of a header record of the earlier layout.
pub open spec fn parse_header_bin(data: Seq<u8>) -> Option<VolumeHeaderBin> {
    if data.len() < 60 {
        None
    } else {
        Some(
            VolumeHeaderBin {
                k: spec_u32_from_le_bytes(data.subrange(0, 4)),
                m: spec_u32_from_le_bytes(data.subrange(4, 8)),
                chunk_size: spec_u32_from_le_bytes(data.subrange(8, 12)),
                total_chunks: spec_u64_from_le_bytes(data.subrange(12, 20)),
                volume_id: spec_u32_from_le_bytes(data.subrange(20, 24)),
                entries_len: spec_u32_from_le_bytes(data.subrange(24, 28)),
                manifest_hash: digest_from(data.subrange(28, 60)),
            },
        )
    }
}

/// Bytes of a header record of the earlier layout.
pub fn encode_header_bin(h: &VolumeHeaderBin) -> (buf: Vec<u8>)
    ensures
        buf@ == header_bin_bytes(*h),
        buf@.len() == 60,
{
    let mut buf = u32_to_le_bytes(h.k);
    let b = u32_to_le_bytes(h.m);
    extend_bytes(&mut buf, b.as_slice());
    let b = u32_to_le_bytes(h.chunk_size);
    extend_bytes(&mut buf, b.as_slice());
    let b = u64_to_le_bytes(h.total_chunks);
    extend_bytes(&mut buf, b.as_slice());
    let b = u32_to_le_bytes(h.volume_id);
    extend_bytes(&mut buf, b.as_slice());
    let b = u32_to_le_bytes(h.entries_len);
    extend_bytes(&mut buf, b.as_slice());
    extend_bytes(&mut buf, h.manifest_hash.as_slice());
    buf
}

/// Reads a header record of the earlier layout.
pub fn decode_header_bin(data: &[u8]) -> (r: Result<VolumeHeaderBin, DecodeError>)
    ensures
        match r {
            Ok(h) => parse_header_bin(data@) == Some(h),
            Err(_) => parse_header_bin(data@) is None,
        },
{
    if data.len() < 60 {
        return Err(DecodeError::Malformed);
    }
    let manifest_hash = copy_digest(data, 28);
    proof {
        let c = digest_from(data@.subrange(28, 60));
        assert(c@ == data@.subrange(28, 60));
        assert(c@ =~= manifest_hash@);
        assert(c == manifest_hash);
    }
    Ok(
        VolumeHeaderBin {
            k: u32_from_le_bytes(slice_subrange(data, 0, 4)),
            m: u32_from_le_bytes(slice_subrange(data, 4, 8)),
            chunk_size: u32_from_le_bytes(slice_subrange(data, 8, 12)),
            total_chunks: u64_from_le_bytes(slice_subrange(data, 12, 20)),
            volume_id: u32_from_le_bytes(slice_subrange(data, 20, 24)),
            entries_len: u32_from_le_bytes(slice_subrange(data, 24, 28)),
            manifest_hash,
        },
    )
}

/// A header record that was written is read back, whatever follows it.
pub proof fn lemma_header_bin_roundtrip(h: VolumeHeaderBin, tail: Seq<u8>)
    ensures
        header_bin_bytes(h).len() == 60,
        parse_header_bin(header_bin_bytes(h) + tail) == Some(h),
{
    vstd::bytes::lemma_auto_spec_u32_to_from_le_bytes();
    vstd::bytes::lemma_auto_spec_u64_to_from_le_bytes();
    let data = header_bin_bytes(h) + tail;
    assert(data.subrange(0, 4) =~= spec_u32_to_le_bytes(h.k));
    assert(data.subrange(4, 8) =~= spec_u32_to_le_bytes(h.m));
    assert(data.subrange(8, 12) =~= spec_u32_to_le_bytes(h.chunk_size));
    assert(data.subrange(12, 20) =~= spec_u64_to_le_bytes(h.total_chunks));
    assert(data.subrange(20, 24) =~= spec_u32_to_le_bytes(h.volume_id));
    assert(data.subrange(24, 28) =~= spec_u32_to_le_bytes(h.entries_len));
    assert(data.subrange(28, 60) =~= h.manifest_hash@);
    let c = digest_from(data.subrange(28, 60));
    assert(c@ == data.subrange(28, 60));
    assert(c@ =~= h.manifest_hash@);
    assert(c == h.manifest_hash);
    let p = parse_header_bin(data)->0;
    assert(p.manifest_hash == h.manifest_hash);
    assert(p == h);
}

} // verus!
