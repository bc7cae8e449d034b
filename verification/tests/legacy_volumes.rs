use parx_core::damage::repairable_line;
use parx_core::encode::{Encoder, EncoderConfig, SourceFile};
use parx_core::index::{IndexError, IndexLimits};
use parx_core::legacy::{
    read_legacy_prefix, read_volume_index, shard_kind, survey_volume, tally_kind, verify_shard,
    LegacyError, ShardKind, VolumeStatus,
};
use parx_core::verify::{verdict, VerifyReport};
use parx_core::volume::{encode_entries, encode_header_bin, VolumeEntry, VolumeHeaderBin};

fn header_bin() -> VolumeHeaderBin {
    VolumeHeaderBin {
        k: 8,
        m: 2,
        chunk_size: 64,
        total_chunks: 16,
        volume_id: 0,
        entries_len: 2,
        manifest_hash: [3u8; 32],
    }
}

fn entries(body_at: u64) -> Vec<VolumeEntry> {
    vec![
        VolumeEntry {
            stripe: 0,
            parity_idx: 0,
            offset: body_at,
            len: 64,
            hash: Some(*blake3::hash(&[0x11u8; 64]).as_bytes()),
            outer_for_stripe: None,
        },
        VolumeEntry {
            stripe: u32::MAX,
            parity_idx: 0,
            offset: body_at + 64,
            len: 64,
            hash: Some(*blake3::hash(&[0x22u8; 64]).as_bytes()),
            outer_for_stripe: Some(0),
        },
    ]
}

// magic, header length, header, an empty inline index, two shard bodies, then
// the compressed index with its length (and checksum in the second layout)
fn legacy_volume(v2: bool) -> Vec<u8> {
    let mut f = Vec::new();
    f.extend_from_slice(if v2 { b"PARXBV2" } else { b"PARXBV1" });
    let h = encode_header_bin(&header_bin());
    f.extend_from_slice(&(h.len() as u32).to_le_bytes());
    f.extend_from_slice(&h);
    f.extend_from_slice(&0u32.to_le_bytes());
    let body_at = f.len() as u64;
    f.extend_from_slice(&[0x11u8; 64]);
    f.extend_from_slice(&[0x22u8; 64]);
    let z = zstd::stream::encode_all(&encode_entries(&entries(body_at), v2)[..], 3).unwrap();
    f.extend_from_slice(&z);
    f.extend_from_slice(&(z.len() as u32).to_le_bytes());
    if v2 {
        f.extend_from_slice(&crc32fast::hash(&z).to_le_bytes());
    }
    f
}

#[test]
fn earlier_layouts_are_read() {
    for v2 in [true, false] {
        let f = legacy_volume(v2);
        let p = read_legacy_prefix(&f).unwrap();
        assert_eq!(p.v2, v2);
        assert_eq!(p.hdr_len, 60);
        assert_eq!((p.header.k, p.header.m, p.header.entries_len), (8, 2, 2));
        let es = read_volume_index(&f, p.hdr_len as usize, p.v2, &IndexLimits::default()).unwrap();
        assert_eq!(es.len(), 2);
        assert_eq!(es[0].stripe, 0);
        assert_eq!(es[0].len, 64);
        if v2 {
            assert_eq!(es[1].outer_for_stripe, Some(0));
        } else {
            assert_eq!(es[1].outer_for_stripe, None);
        }
        let s = survey_volume(&f, &IndexLimits::default());
        assert_eq!(s.status, VolumeStatus::Good);
        assert_eq!((s.k, s.m, s.header_count), (8, 2, 2));
        assert_eq!(s.entries.len(), 2);
    }
}

#[test]
fn inline_index_is_preferred() {
    let z = zstd::stream::encode_all(&encode_entries(&entries(0)[..1], true)[..], 3).unwrap();
    let mut f = Vec::new();
    f.extend_from_slice(b"PARXBV2");
    let h = encode_header_bin(&header_bin());
    f.extend_from_slice(&(h.len() as u32).to_le_bytes());
    f.extend_from_slice(&h);
    f.extend_from_slice(&(z.len() as u32).to_le_bytes());
    f.extend_from_slice(&crc32fast::hash(&z).to_le_bytes());
    f.extend_from_slice(&z);
    assert_eq!(read_volume_index(&f, 60, true, &IndexLimits::default()).unwrap().len(), 1);
    // with a wrong checksum the inline index is passed over; the end of the
    // file then holds no index either
    let mut bad = f.clone();
    bad[7 + 4 + 60 + 4] ^= 1;
    assert!(read_volume_index(&bad, 60, true, &IndexLimits::default()).is_ok());
}

#[test]
fn damaged_earlier_volumes_are_reported_not_fatal() {
    let f = legacy_volume(true);
    // a flipped byte of the compressed index
    let mut bad = f.clone();
    let n = bad.len();
    bad[n - 12] ^= 0xFF;
    assert_eq!(read_volume_index(&bad, 60, true, &IndexLimits::default()).unwrap_err(), IndexError::CrcMismatch);
    let s = survey_volume(&bad, &IndexLimits::default());
    assert_eq!(s.status, VolumeStatus::BadIndex(IndexError::CrcMismatch));
    assert!(s.entries.is_empty());
    assert_eq!(s.header_count, 2);
    // the first layout has no checksum: the damage shows on decompressing
    let mut bad1 = legacy_volume(false);
    let n = bad1.len();
    bad1[n - 8] ^= 0xFF;
    assert!(read_volume_index(&bad1, 60, false, &IndexLimits::default()).is_err());
    // a zero length at the end means no index
    let mut none = f.clone();
    let n = none.len();
    none[n - 8..n - 4].copy_from_slice(&0u32.to_le_bytes());
    assert_eq!(read_volume_index(&none, 60, true, &IndexLimits::default()).unwrap().len(), 0);
    assert_eq!(read_volume_index(&[1, 2, 3], 60, true, &IndexLimits::default()).unwrap().len(), 0);
    assert_eq!(read_volume_index(&[0u8; 6], usize::MAX, true, &IndexLimits::default()).unwrap().len(), 0);
    // headers
    assert_eq!(read_legacy_prefix(b"PARXBV").unwrap_err(), LegacyError::BadHeader);
    assert_eq!(read_legacy_prefix(b"PARXBV3....").unwrap_err(), LegacyError::BadHeader);
    assert_eq!(read_legacy_prefix(b"PARXBV2\x3c\0").unwrap_err(), LegacyError::HeaderLength);
    assert_eq!(read_legacy_prefix(&f[..40]).unwrap_err(), LegacyError::HeaderPayload);
    let mut short_hdr = f.clone();
    short_hdr[7..11].copy_from_slice(&59u32.to_le_bytes());
    assert_eq!(read_legacy_prefix(&short_hdr).unwrap_err(), LegacyError::HeaderDecode);
    let s = survey_volume(b"something else entirely, not a volume", &IndexLimits::default());
    assert_eq!(s.status, VolumeStatus::BadHeader);
    assert_eq!((s.k, s.m, s.header_count), (0, 0, 0));
}

#[test]
fn shards_are_tallied_by_kind() {
    let f = legacy_volume(true);
    let es = read_volume_index(&f, 60, true, &IndexLimits::default()).unwrap();
    assert_eq!(shard_kind(&es[0]), ShardKind::Inner(0));
    assert_eq!(shard_kind(&es[1]), ShardKind::Outer(0));
    let stray = VolumeEntry { outer_for_stripe: None, ..es[1] };
    assert_eq!(shard_kind(&stray), ShardKind::Stray);
    assert!(verify_shard(&f, &es[0]));
    assert!(verify_shard(&f, &es[1]));
    assert_eq!(tally_kind(&f, &es, ShardKind::Inner(0)), (1, 1));
    assert_eq!(tally_kind(&f, &es, ShardKind::Outer(0)), (1, 1));
    assert_eq!(tally_kind(&f, &es, ShardKind::Inner(1)), (0, 0));
    // a damaged body is present but not verified
    let mut bad = f.clone();
    bad[es[0].offset as usize] ^= 1;
    assert!(!verify_shard(&bad, &es[0]));
    assert_eq!(tally_kind(&bad, &es, ShardKind::Inner(0)), (1, 0));
    assert_eq!(tally_kind(&bad, &es, ShardKind::Outer(0)), (1, 1));
    // an entry without digest, or one that points outside, is not verified
    let no_hash = VolumeEntry { hash: None, ..es[0] };
    assert!(!verify_shard(&f, &no_hash));
    let outside = VolumeEntry { offset: f.len() as u64, ..es[0] };
    assert!(!verify_shard(&f, &outside));
}

#[test]
fn survey_of_current_volumes() {
    let files = vec![SourceFile { rel_path: "a.bin".to_string(), data: vec![1u8; 3000] }];
    let cfg = EncoderConfig {
        chunk_size: 512,
        stripe_k: 4,
        parity_pct: 50,
        volumes: 2,
        outer_group: 0,
        outer_parity: 1,
        interleave_files: false,
    };
    let out = Encoder::encode(&files, &cfg, &vec![usize::MAX; 2], "out", "now").unwrap();
    let mut vols = Encoder::finish(&out.volumes, None).unwrap();
    let limits = IndexLimits::default();
    let s = survey_volume(&vols[0], &limits);
    assert_eq!(s.status, VolumeStatus::Good);
    assert_eq!((s.k, s.m), (4, 2));
    assert_eq!(s.header_count as usize, s.entries.len());
    let (p, v) = tally_kind(&vols[0], &s.entries, ShardKind::Inner(0));
    assert_eq!((p, v), (1, 1));
    // the end of the volume overwritten: header still readable, index not
    let n = vols[1].len();
    for b in &mut vols[1][n - 100..] {
        *b = 0xA5;
    }
    let s = survey_volume(&vols[1], &limits);
    assert_eq!(s.status, VolumeStatus::BadIndex(IndexError::BadTrailerMagic));
    assert!(s.entries.is_empty());
    assert!(s.header_count > 0);
    // the other volume is still usable
    assert_eq!(survey_volume(&vols[0], &limits).status, VolumeStatus::Good);
}

#[test]
fn verdict_lines() {
    let ok = VerifyReport { chunks_ok: 5, chunks_bad: 0, merkle_ok: true };
    assert_eq!(verdict(&ok), "OK");
    let bad = VerifyReport { chunks_ok: 4, chunks_bad: 1, merkle_ok: false };
    assert_eq!(verdict(&bad), "BAD");
    let root = VerifyReport { chunks_ok: 5, chunks_bad: 0, merkle_ok: false };
    assert_eq!(verdict(&root), "BAD");
    assert_eq!(repairable_line(2, 2), "Repairable: YES");
    assert_eq!(repairable_line(0, 0), "Repairable: YES");
    assert_eq!(repairable_line(5, 2), "Repairable: NO (need 3 more in worst stripe)");
    assert_eq!(repairable_line(1, 0), "Repairable: NO (need 1 more in worst stripe)");
}

#[test]
fn overwritten_end_of_the_largest_volume() {
    let files = vec![SourceFile {
        rel_path: "a.bin".to_string(),
        data: (0..200_000usize).map(|i| (i % 251) as u8).collect(),
    }];
    let cfg = EncoderConfig {
        chunk_size: 4096,
        stripe_k: 4,
        parity_pct: 50,
        volumes: 3,
        outer_group: 0,
        outer_parity: 0,
        interleave_files: false,
    };
    let out = Encoder::encode(&files, &cfg, &vec![usize::MAX; 3], "out", "now").unwrap();
    let mut vols = Encoder::finish(&out.volumes, None).unwrap();
    let largest = (0..3).max_by_key(|v| vols[*v].len()).unwrap();
    let n = vols[largest].len();
    assert!(n > 8192);
    for b in &mut vols[largest][n - 8192..] {
        *b = 0xA5;
    }
    let limits = IndexLimits::default();
    for v in 0..3 {
        let s = survey_volume(&vols[v], &limits);
        if v == largest {
            assert_eq!(s.status, VolumeStatus::BadIndex(IndexError::BadTrailerMagic));
            assert!(s.entries.is_empty());
        } else {
            assert_eq!(s.status, VolumeStatus::Good);
            assert!(!s.entries.is_empty());
        }
    }
}

// the shards and entries of a finished volume, laid out as the second
// earlier layout has them
fn as_earlier_layout(vol: &[u8]) -> Vec<u8> {
    let es = parx_core::index::open_index(vol, &IndexLimits::default()).unwrap();
    let mut f = Vec::new();
    f.extend_from_slice(b"PARXBV2");
    let h = encode_header_bin(&header_bin());
    f.extend_from_slice(&(h.len() as u32).to_le_bytes());
    f.extend_from_slice(&h);
    f.extend_from_slice(&0u32.to_le_bytes());
    let mut moved = Vec::new();
    for e in &es {
        let mut e2 = *e;
        e2.offset = f.len() as u64;
        f.extend_from_slice(&vol[e.offset as usize..(e.offset + e.len as u64) as usize]);
        moved.push(e2);
    }
    let z = zstd::stream::encode_all(&encode_entries(&moved, true)[..], 3).unwrap();
    f.extend_from_slice(&z);
    f.extend_from_slice(&(z.len() as u32).to_le_bytes());
    f.extend_from_slice(&crc32fast::hash(&z).to_le_bytes());
    f
}

#[test]
fn repair_works_from_volumes_of_an_earlier_layout() {
    let data: Vec<u8> = (0..10 * 512usize).map(|i| (i * 31 % 251) as u8).collect();
    let cfg = EncoderConfig {
        chunk_size: 512,
        stripe_k: 4,
        parity_pct: 50,
        volumes: 2,
        outer_group: 0,
        outer_parity: 0,
        interleave_files: false,
    };
    let files = vec![SourceFile { rel_path: "a.bin".to_string(), data: data.clone() }];
    let out = Encoder::encode(&files, &cfg, &vec![usize::MAX; 2], ".parx", "t").unwrap();
    let vols = Encoder::finish(&out.volumes, None).unwrap();
    let earlier: Vec<Vec<u8>> = vols.iter().map(|v| as_earlier_layout(v)).collect();
    for v in &earlier {
        assert!(parx_core::index::open_index(v, &IndexLimits::default()).is_err());
        assert_eq!(survey_volume(v, &IndexLimits::default()).status, VolumeStatus::Good);
    }
    let mut damaged = data.clone();
    for b in &mut damaged[600..900] {
        *b ^= 0x5A;
    }
    let found = vec![parx_core::path_safety::LinkFacts { link_on_path: false, contained: true }];
    let fixed =
        parx_core::repair::repair(&out.manifest, &vec![Some(damaged)], &earlier, &found).unwrap();
    assert_eq!(fixed.report.failed_chunks, 0);
    assert_eq!(fixed.report.repaired_chunks, 1);
    assert_eq!(fixed.files[0].as_deref(), Some(&data[..]));
    // the same through the audit
    let given: Vec<Option<Vec<u8>>> = earlier.iter().cloned().map(Some).collect();
    let rep = parx_core::parity_audit::audit(&given, &IndexLimits::default()).unwrap();
    assert_eq!(rep.stripe_parity_counts.get(&0), Some(&2));
    assert_eq!(rep.stripe_parity_verified.get(&2), Some(&2));
}

#[test]
fn earlier_layouts_are_read_under_the_limits() {
    let f = legacy_volume(true);
    let raw = encode_entries(&entries(0), true).len();
    let tight = IndexLimits { max_uncompressed_bytes: raw - 1, max_entries: 10 };
    assert_eq!(read_volume_index(&f, 60, true, &tight).unwrap_err(), IndexError::TooLarge);
    let exact = IndexLimits { max_uncompressed_bytes: raw, max_entries: 10 };
    assert_eq!(read_volume_index(&f, 60, true, &exact).unwrap().len(), 2);
    let few = IndexLimits { max_uncompressed_bytes: raw, max_entries: 1 };
    assert_eq!(read_volume_index(&f, 60, true, &few).unwrap_err(), IndexError::TooManyEntries);
    let s = survey_volume(&f, &tight);
    assert_eq!(s.status, VolumeStatus::BadIndex(IndexError::TooLarge));
    assert!(s.entries.is_empty());
    let open = IndexLimits { max_uncompressed_bytes: usize::MAX, max_entries: usize::MAX };
    assert_eq!(read_volume_index(&f, 60, true, &open).unwrap().len(), 2);
}
