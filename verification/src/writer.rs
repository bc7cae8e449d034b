//! Writing a parity volume: the header, the shard bodies in append order with
//! one index entry each, and the index section that finishes the volume.

use crate::hash::{blake3_digest, blake3_hash, extend_bytes};
use crate::index::{
    append_manifest_backup, backup_error, crc32_of, index_write_error, index_len_of, index_payload, index_section,
    lemma_manifest_backup_roundtrip, parse_index_section, parse_manifest_backup, parse_trailer,
    write_index_and_trailer, zstd_frame, IndexError, IndexLimits, ManifestBackupMeta,
};
use crate::volume::{
    header_bytes, index_bytes, lemma_header_roundtrip, parse_header, simple_header, HeaderError,
    VolumeEntry, VolumeHeader, HEADER_LEN,
};
use vstd::prelude::*;
use vstd::slice::slice_subrange;

verus! {

/// The bytes of a volume that an index entry points at.
pub open spec fn shard_bytes(image: Seq<u8>, e: VolumeEntry) -> Seq<u8> {
    image.subrange(e.offset as int, e.offset + e.len)
}

/// Where the shard bodies of a run of entries end, the first of them
/// starting right after the header.
pub open spec fn bodies_end(entries: Seq<VolumeEntry>) -> int
    decreases entries.len(),
{
    if entries.len() == 0 {
        32
    } else {
        bodies_end(entries.drop_last()) + entries.last().len
    }
}

/// Shards and index entries correspond one to one, in append order: the
/// bodies follow the header without gaps in the order of the entries, and
/// each entry records the place, the length and the digest of its body.
pub open spec fn laid_out(image: Seq<u8>, entries: Seq<VolumeEntry>) -> bool {
    &&& image.len() >= 32
    &&& bodies_end(entries) <= image.len()
    &&& forall|j: int|
        0 <= j < entries.len() ==> {
            let e = #[trigger] entries[j];
            &&& e.offset == bodies_end(entries.take(j))
            &&& e.offset + e.len <= bodies_end(entries)
            &&& e.hash matches Some(d) && d@ == blake3_digest(shard_bytes(image, e))
        }
}

/// A volume that is being written.
pub struct VolumeWriter {
    pub k: u32,
    pub m: u32,
    pub image: Vec<u8>,
    pub entries: Vec<VolumeEntry>,
}

proof fn lemma_bodies_end_push(entries: Seq<VolumeEntry>, e: VolumeEntry)
    ensures
        bodies_end(entries.push(e)) == bodies_end(entries) + e.len,
{
    assert(entries.push(e).drop_last() =~= entries);
}

proof fn lemma_bodies_end_mono(entries: Seq<VolumeEntry>, j: int)
    requires
        0 <= j <= entries.len(),
    ensures
        32 <= bodies_end(entries.take(j)) <= bodies_end(entries),
    decreases entries.len(),
{
    if j == entries.len() {
        assert(entries.take(j) =~= entries);
        if entries.len() > 0 {
            lemma_bodies_end_mono(entries.drop_last(), j - 1);
            assert(entries.drop_last().take(j - 1) =~= entries.drop_last());
        }
    } else {
        lemma_bodies_end_mono(entries.drop_last(), j);
        assert(entries.drop_last().take(j) =~= entries.take(j));
    }
}

/// A volume that agrees with an image from the end of the header up to the
/// end of the image holds the same shard bodies for the same entries.
proof fn lemma_shards_kept(image: Seq<u8>, entries: Seq<VolumeEntry>, vol: Seq<u8>)
    requires
        laid_out(image, entries),
        bodies_end(entries) <= image.len() <= vol.len(),
        vol.subrange(32, image.len() as int) == image.subrange(32, image.len() as int),
    ensures
        laid_out(vol, entries),
        forall|j: int|
            0 <= j < entries.len() ==> shard_bytes(vol, #[trigger] entries[j]) == shard_bytes(
                image,
                entries[j],
            ),
{
    assert forall|j: int| 0 <= j < entries.len() implies shard_bytes(vol, #[trigger] entries[j])
        == shard_bytes(image, entries[j]) by {
        let e = entries[j];
        lemma_bodies_end_mono(entries, j);
        assert(32 <= e.offset);
        assert(e.offset + e.len <= image.len());
        assert forall|i: int| 0 <= i < e.len implies shard_bytes(vol, e)[i] == shard_bytes(
            image,
            e,
        )[i] by {
            let x = e.offset + i - 32;
            assert(vol.subrange(32, image.len() as int)[x] == vol[32 + x]);
            assert(image.subrange(32, image.len() as int)[x] == image[32 + x]);
            assert(shard_bytes(vol, e)[i] == vol[e.offset + i]);
            assert(shard_bytes(image, e)[i] == image[e.offset + i]);
        }
        assert(shard_bytes(vol, e) =~= shard_bytes(image, e));
    }
}

/// A volume that starts with a header and has at least 32 bytes reads that
/// header back.
proof fn lemma_rewritten_header(k: u32, m: u32, entries: u32, image: Seq<u8>, vol: Seq<u8>)
    requires
        vol.len() >= 32,
        vol.subrange(0, 32) == header_bytes(k, m, entries),
    ensures
        parse_header(vol) == Ok::<VolumeHeader, HeaderError>(
            VolumeHeader {
                k,
                m,
                entries_len: entries,
                header_version: 1,
                header_len: 32,
                feature_flags: 0,
            },
        ),
{
    lemma_header_roundtrip(k, m, entries, vol.subrange(32, vol.len() as int));
    assert(vol =~= header_bytes(k, m, entries) + vol.subrange(32, vol.len() as int));
}

/// What stands at the start of a volume stays there when bytes are appended.
proof fn lemma_prefix_kept(first: Seq<u8>, body: Seq<u8>, vol: Seq<u8>)
    requires
        32 <= first.len() <= body.len() <= vol.len(),
        body.subrange(0, first.len() as int) == first,
        vol.subrange(0, body.len() as int) == body,
    ensures
        vol.subrange(0, 32) == first.subrange(0, 32),
        vol.subrange(32, first.len() as int) == first.subrange(32, first.len() as int),
{
    assert forall|i: int| 0 <= i < first.len() implies vol[i] == first[i] by {
        assert(vol.subrange(0, body.len() as int)[i] == body[i]);
        assert(body.subrange(0, first.len() as int)[i] == first[i]);
    }
    assert(vol.subrange(0, 32) =~= first.subrange(0, 32));
    assert(vol.subrange(32, first.len() as int) =~= first.subrange(32, first.len() as int));
}

/// The manifest to embed, as bytes.
pub open spec fn json_view(manifest_json: Option<&[u8]>) -> Option<Seq<u8>> {
    match manifest_json {
        Some(j) => Some(j@),
        None => None,
    }
}

impl VolumeWriter {
    /// The writer holds a header and, after it, exactly the bodies of its
    /// entries.
    pub open spec fn wf(&self) -> bool {
        &&& laid_out(self.image@, self.entries@)
        &&& bodies_end(self.entries@) == self.image@.len()
        &&& self.image@.subrange(0, 32) == header_bytes(self.k, self.m, 0)
    }

    /// A volume for a code with K data and M parity shards that holds only
    /// its header, with no entry counted yet.
    pub fn new(k: u32, m: u32) -> (w: VolumeWriter)
        ensures
            w.wf(),
            w.k == k,
            w.m == m,
            w.entries@.len() == 0,
            w.image@ == header_bytes(k, m, 0),
    {
        let image = simple_header(k, m, 0);
        assert(image@.subrange(0, 32) =~= image@);
        VolumeWriter { k, m, image, entries: Vec::new() }
    }

    /// The entry that appending `bytes` adds to a volume whose image has
    /// `at` bytes.
    pub open spec fn entry_for(
        at: int,
        stripe: u32,
        parity_idx: u16,
        outer_for_stripe: Option<u32>,
        bytes: Seq<u8>,
        e: VolumeEntry,
    ) -> bool {
        &&& e.stripe == stripe
        &&& e.parity_idx == parity_idx
        &&& e.offset == at
        &&& e.len == bytes.len()
        &&& e.hash matches Some(d) && d@ == blake3_digest(bytes)
        &&& e.outer_for_stripe == outer_for_stripe
    }

    /// Appends the body of one shard and records its entry. Fails with
    /// `TooLarge`, leaving the volume as it was, exactly where the shard has
    /// more than `u32::MAX` bytes.
    pub fn append_shard(
        &mut self,
        stripe: u32,
        parity_idx: u16,
        outer_for_stripe: Option<u32>,
        bytes: &[u8],
    ) -> (r: Result<(), IndexError>)
        requires
            old(self).wf(),
        ensures
            final(self).k == old(self).k,
            final(self).m == old(self).m,
            final(self).wf(),
            match r {
                Ok(_) => {
                    &&& bytes@.len() <= u32::MAX
                    &&& final(self).image@ == old(self).image@ + bytes@
                    &&& final(self).entries@.len() == old(self).entries@.len() + 1
                    &&& final(self).entries@.drop_last() == old(self).entries@
                    &&& Self::entry_for(
                        old(self).image@.len() as int,
                        stripe,
                        parity_idx,
                        outer_for_stripe,
                        bytes@,
                        final(self).entries@.last(),
                    )
                    &&& shard_bytes(final(self).image@, final(self).entries@.last()) == bytes@
                },
                Err(e) => {
                    &&& e == IndexError::TooLarge
                    &&& bytes@.len() > u32::MAX
                    &&& final(self).image@ == old(self).image@
                    &&& final(self).entries@ == old(self).entries@
                },
            },
    {
        if bytes.len() > 0xffff_ffff {
            return Err(IndexError::TooLarge);
        }
        let ghost old_image = self.image@;
        let ghost old_entries = self.entries@;
        let e = VolumeEntry {
            stripe,
            parity_idx,
            offset: self.image.len() as u64,
            len: bytes.len() as u32,
            hash: Some(blake3_hash(bytes)),
            outer_for_stripe,
        };
        extend_bytes(&mut self.image, bytes);
        self.entries.push(e);
        proof {
            let image = self.image@;
            let entries = self.entries@;
            lemma_bodies_end_push(old_entries, e);
            assert(entries.drop_last() =~= old_entries);
            assert(shard_bytes(image, e) =~= bytes@);
            assert(image.subrange(0, 32) =~= old_image.subrange(0, 32));
            assert forall|j: int| 0 <= j < entries.len() implies {
                let x = #[trigger] entries[j];
                &&& x.offset == bodies_end(entries.take(j))
                &&& x.offset + x.len <= bodies_end(entries)
                &&& x.hash matches Some(d) && d@ == blake3_digest(shard_bytes(image, x))
            } by {
                if j < old_entries.len() {
                    assert(entries[j] == old_entries[j]);
                    assert(entries.take(j) =~= old_entries.take(j));
                    assert(shard_bytes(image, entries[j]) =~= shard_bytes(old_image, entries[j]));
                } else {
                    assert(entries.take(j) =~= old_entries);
                }
            }
        }
        Ok(())
    }

    /// The image with the number of entries counted in its header.
    fn with_counted_header(&self) -> (vol: Vec<u8>)
        requires
            self.wf(),
            self.entries@.len() <= u32::MAX,
        ensures
            vol@ == header_bytes(self.k, self.m, self.entries@.len() as u32) + self.image@.subrange(
                32,
                self.image@.len() as int,
            ),
            vol@.len() == self.image@.len(),
            vol@.subrange(0, 32) == header_bytes(self.k, self.m, self.entries@.len() as u32),
            vol@.subrange(32, vol@.len() as int) == self.image@.subrange(
                32,
                self.image@.len() as int,
            ),
    {
        let mut vol = simple_header(self.k, self.m, self.entries.len() as u32);
        let ghost head = vol@;
        extend_bytes(&mut vol, slice_subrange(self.image.as_slice(), HEADER_LEN, self.image.len()));
        proof {
            assert(vol@.subrange(0, 32) =~= head);
            assert(vol@.subrange(32, vol@.len() as int) =~= self.image@.subrange(
                32,
                self.image@.len() as int,
            ));
        }
        vol
    }

    /// What finishing leaves in front of the index section: the header with
    /// the number of entries, the shard bodies, and the compressed manifest
    /// where one is embedded.
    pub open spec fn finished_body(&self, manifest_json: Option<Seq<u8>>) -> Seq<u8> {
        header_bytes(self.k, self.m, self.entries@.len() as u32) + self.image@.subrange(
            32,
            self.image@.len() as int,
        ) + match manifest_json {
            None => Seq::empty(),
            Some(json) => zstd_frame(json),
        }
    }

    /// The record of the embedded manifest in a finished volume.
    pub open spec fn backup_meta(&self, manifest_json: Option<Seq<u8>>) -> Option<
        ManifestBackupMeta,
    > {
        match manifest_json {
            None => None,
            Some(json) => Some(
                ManifestBackupMeta {
                    off: self.image@.len() as u64,
                    len: zstd_frame(json).len() as u32,
                    crc32: crc32_of(zstd_frame(json)),
                },
            ),
        }
    }

    /// The finished volume: body and index section.
    pub open spec fn finished(&self, manifest_json: Option<Seq<u8>>) -> Seq<u8> {
        let body = self.finished_body(manifest_json);
        body + index_section(
            body.len() as u64,
            zstd_frame(index_bytes(self.entries@, true)),
            self.backup_meta(manifest_json),
        )
    }

    /// The finished volume `vol` reads back: its header tells K, M and the
    /// number of entries, its trailer locates the index, the index gives the
    /// entries wherever the limits admit them, every shard body stands where
    /// its entry says, and an embedded manifest is found again.
    pub open spec fn reads_back(&self, manifest_json: Option<Seq<u8>>, vol: Seq<u8>) -> bool {
        let body = self.finished_body(manifest_json);
        let compressed = zstd_frame(index_bytes(self.entries@, true));
        &&& self.entries@.len() <= u32::MAX
        &&& vol == self.finished(manifest_json)
        &&& parse_header(vol) == Ok::<VolumeHeader, HeaderError>(
            VolumeHeader {
                k: self.k,
                m: self.m,
                entries_len: self.entries@.len() as u32,
                header_version: 1,
                header_len: 32,
                feature_flags: 0,
            },
        )
        &&& parse_trailer(vol) == Ok::<(u64, u32, u32), IndexError>(
            (body.len() as u64, index_len_of(compressed), crc32_of(index_payload(compressed))),
        )
        &&& forall|limits: IndexLimits|
            index_bytes(self.entries@, true).len() <= limits.max_uncompressed_bytes
                && self.entries@.len() <= limits.max_entries ==> #[trigger] parse_index_section(
                vol,
                body.len() as u64,
                index_len_of(compressed),
                crc32_of(index_payload(compressed)),
                limits,
            ) == Ok::<Seq<VolumeEntry>, IndexError>(self.entries@)
        &&& laid_out(vol, self.entries@)
        &&& forall|j: int|
            0 <= j < self.entries@.len() ==> shard_bytes(vol, #[trigger] self.entries@[j])
                == shard_bytes(self.image@, self.entries@[j])
        &&& manifest_json matches Some(j) ==> parse_manifest_backup(vol) == Ok::<
            Option<Seq<u8>>,
            IndexError,
        >(Some(j))
    }

    /// Why the volume cannot be finished, if it cannot: it holds more than
    /// `u32::MAX` entries; or the manifest to embed, or else the index, gets
    /// no frame from the compressor or one too long to be described.
    pub open spec fn finish_error(&self, manifest_json: Option<Seq<u8>>) -> Option<IndexError> {
        if self.entries@.len() > u32::MAX {
            Some(IndexError::TooLarge)
        } else {
            let embedding = match manifest_json {
                Some(j) => backup_error(j),
                None => None,
            };
            match embedding {
                Some(e) => Some(e),
                None => index_write_error(self.entries@),
            }
        }
    }

    /// Finishes the volume: counts the entries in the header, embeds the
    /// compressed manifest where one is given, and appends the index section.
    /// What it returns reads back as it was written. It fails exactly where
    /// `finish_error` gives a reason, and with that reason.
    pub fn finish(&self, manifest_json: Option<&[u8]>) -> (r: Result<Vec<u8>, IndexError>)
        requires
            self.wf(),
        ensures
            match r {
                Ok(vol) => self.finish_error(json_view(manifest_json)) is None && self.reads_back(
                    json_view(manifest_json),
                    vol@,
                ),
                Err(e) => self.finish_error(json_view(manifest_json)) == Some(e),
            },
    {
        if self.entries.len() > 0xffff_ffff {
            return Err(IndexError::TooLarge);
        }
        let ghost json = json_view(manifest_json);
        let mut vol = self.with_counted_header();
        let ghost rewritten = vol@;
        let meta = match manifest_json {
            None => None,
            Some(j) => match append_manifest_backup(&mut vol, j) {
                Err(e) => {
                    return Err(e);
                },
                Ok(meta) => Some(meta),
            },
        };
        let ghost body = vol@;
        let body_len: usize = vol.len();
        assert(body == self.finished_body(json) && meta == self.backup_meta(json)
            && body.subrange(0, rewritten.len() as int) == rewritten) by {
            assert(body =~= self.finished_body(json));
            assert(body.subrange(0, rewritten.len() as int) =~= rewritten);
        }
        match write_index_and_trailer(&mut vol, self.entries.as_slice(), meta) {
            Err(e) => {
                return Err(e);
            },
            Ok(_) => {},
        }
        proof {
            let compressed = zstd_frame(index_bytes(self.entries@, true));
            assert(body.len() == body_len);
            assert(vol@.subrange(0, body.len() as int) =~= body);
            lemma_prefix_kept(rewritten, body, vol@);
            lemma_rewritten_header(self.k, self.m, self.entries@.len() as u32, self.image@, vol@);
            lemma_shards_kept(self.image@, self.entries@, vol@);
            match json {
                None => {},
                Some(j) => {
                    let blob = zstd_frame(j);
                    assert(body =~= rewritten + blob);
                    lemma_manifest_backup_roundtrip(rewritten, j, blob, compressed);
                },
            }
        }
        Ok(vol)
    }
}

} // verus!
