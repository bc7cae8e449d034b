use parx_core::index::{
    append_blob, append_manifest_backup, assemble_index_section, load_index, open_index, read_index,
    read_index_count, read_manifest_backup_json, read_manifest_backup_meta, read_trailer,
    write_index_and_trailer, IndexError, IndexLimits, IndexStatus, ManifestBackupMeta,
};
use parx_core::volume::{
    decode_header_bin, encode_entries, encode_header_bin, final_vol_name, read_header,
    simple_header, vol_name, HeaderError, VolumeEntry, VolumeHeaderBin,
};

fn two_entries() -> Vec<VolumeEntry> {
    vec![
        VolumeEntry {
            stripe: 0,
            parity_idx: 0,
            offset: 32,
            len: 1024,
            hash: None,
            outer_for_stripe: None,
        },
        VolumeEntry {
            stripe: 1,
            parity_idx: 1,
            offset: 1056,
            len: 1024,
            hash: None,
            outer_for_stripe: None,
        },
    ]
}

fn written_volume() -> Vec<u8> {
    let mut vol = vec![0u8; 32];
    vol.extend_from_slice(&vec![7u8; 2048]);
    write_index_and_trailer(&mut vol, &two_entries(), None).unwrap();
    vol
}

#[test]
fn index_write_read_roundtrip() {
    // Write some payload (room for the header)
    let mut vol = vec![0u8; 32];
    let entries = two_entries();
    write_index_and_trailer(&mut vol, &entries, None).unwrap();

    let (off, len, crc) = read_trailer(&vol).unwrap();
    let out = read_index(&vol, off, len, crc, &IndexLimits::default()).unwrap();
    assert_eq!(out.len(), entries.len());
    assert_eq!(out[0].stripe, 0);
    assert_eq!(out[1].parity_idx, 1);
    assert_eq!(read_index_count(&vol, off, len, crc, &IndexLimits::default()).unwrap(), 2);
}

#[test]
fn trailer_locates_and_checks_the_payload() {
    let vol = written_volume();
    let (off, len, crc) = read_trailer(&vol).unwrap();
    assert_eq!(off, 32 + 2048);
    assert_eq!(off as usize + len as usize + 26, vol.len());
    let payload = &vol[off as usize..off as usize + len as usize];
    // the checksum is the CRC-32 of the payload
    assert_eq!(crc, crc32fast::hash(payload));
    // the payload is the descriptor and a zstd frame of the entries
    assert_eq!(&payload[..9], b"PARXIDXD\0");
    assert_eq!(&payload[9..13], &1u32.to_le_bytes());
    assert_eq!(&payload[13..17], &1u32.to_le_bytes());
    assert_eq!(&payload[17..21], &0u32.to_le_bytes());
    let raw = zstd::stream::decode_all(&payload[21..]).unwrap();
    assert_eq!(raw, encode_entries(&two_entries(), true));
    assert_ne!(payload[21..].to_vec(), raw);
    // the trailer itself
    let t = &vol[vol.len() - 26..];
    assert_eq!(&t[..10], b"PARXINDEX\0");
    assert_eq!(&t[10..18], &off.to_le_bytes());
    assert_eq!(&t[18..22], &len.to_le_bytes());
    assert_eq!(&t[22..26], &crc.to_le_bytes());
}

#[test]
fn assembled_section_is_what_write_appends() {
    let compressed = zstd::stream::encode_all(&encode_entries(&two_entries(), true)[..], 0).unwrap();
    let section = assemble_index_section(2080, &compressed, None).unwrap();
    let vol = written_volume();
    assert_eq!(section, vol[2080..].to_vec());
}

#[test]
fn short_or_foreign_files_have_no_trailer() {
    assert_eq!(read_trailer(&[]).unwrap_err(), IndexError::TooShort);
    assert_eq!(read_trailer(&[0u8; 25]).unwrap_err(), IndexError::TooShort);
    assert_eq!(read_trailer(&[0u8; 26]).unwrap_err(), IndexError::BadTrailerMagic);
    let (entries, status) = load_index(&[0u8; 100], &IndexLimits::default());
    assert!(entries.is_empty());
    assert_eq!(status, IndexStatus::Failed(IndexError::BadTrailerMagic));
}

#[test]
fn tampering_is_detected_and_leaves_no_entries() {
    let vol = written_volume();
    let limits = IndexLimits::default();
    let (entries, status) = load_index(&vol, &limits);
    assert_eq!(status, IndexStatus::Read);
    assert_eq!(entries.len(), 2);
    let (off, len, _) = read_trailer(&vol).unwrap();
    // every single byte of the payload and of the trailer
    for pos in (off as usize)..vol.len() {
        let mut bad = vol.clone();
        bad[pos] ^= 0x5A;
        let (entries, status) = load_index(&bad, &limits);
        assert!(entries.is_empty(), "byte {pos}");
        assert_ne!(status, IndexStatus::Read, "byte {pos}");
    }
    // a flipped payload byte is a checksum mismatch
    let mut bad = vol.clone();
    bad[off as usize + len as usize - 1] ^= 1;
    assert_eq!(open_index(&bad, &limits).unwrap_err(), IndexError::CrcMismatch);
    // a trailer that points outside the volume
    let mut bad = vol.clone();
    let n = bad.len();
    bad[n - 16..n - 8].copy_from_slice(&u64::MAX.to_le_bytes());
    assert_eq!(open_index(&bad, &limits).unwrap_err(), IndexError::OutOfBounds);
}

#[test]
fn corrupt_index_trailer_does_not_panic() {
    let mut vol = vec![0u8; 32];
    vol.extend_from_slice(&vec![3u8; 16 * 1024]);
    write_index_and_trailer(&mut vol, &two_entries(), None).unwrap();
    // overwrite the last 8 KiB
    let n = vol.len();
    for b in &mut vol[n - 8192..] {
        *b = 0xA5;
    }
    let (entries, status) = load_index(&vol, &IndexLimits::default());
    assert!(entries.is_empty());
    assert_eq!(status, IndexStatus::Failed(IndexError::BadTrailerMagic));
}

#[test]
fn limits_bound_the_index() {
    let vol = written_volume();
    let (off, len, crc) = read_trailer(&vol).unwrap();
    let raw_len = encode_entries(&two_entries(), true).len();
    let tight = IndexLimits { max_uncompressed_bytes: raw_len, max_entries: 2 };
    assert_eq!(read_index(&vol, off, len, crc, &tight).unwrap().len(), 2);
    let small = IndexLimits { max_uncompressed_bytes: raw_len - 1, max_entries: 2 };
    assert_eq!(read_index(&vol, off, len, crc, &small).unwrap_err(), IndexError::TooLarge);
    let few = IndexLimits { max_uncompressed_bytes: raw_len, max_entries: 1 };
    assert_eq!(read_index(&vol, off, len, crc, &few).unwrap_err(), IndexError::TooManyEntries);
    let d = IndexLimits::default();
    assert_eq!(d.max_uncompressed_bytes, 32 * 1024 * 1024);
    assert_eq!(d.max_entries, 5_000_000);
}

#[test]
fn payload_that_is_no_frame_or_no_index() {
    let limits = IndexLimits::default();
    // a payload with a right checksum that is no zstd frame
    let mut vol = vec![0u8; 32];
    let payload = b"not a frame at all".to_vec();
    let at = vol.len() as u64;
    vol.extend_from_slice(&payload);
    vol.extend_from_slice(b"PARXINDEX\0");
    vol.extend_from_slice(&at.to_le_bytes());
    vol.extend_from_slice(&(payload.len() as u32).to_le_bytes());
    vol.extend_from_slice(&crc32fast::hash(&payload).to_le_bytes());
    assert_eq!(open_index(&vol, &limits).unwrap_err(), IndexError::Compression);
    // a frame without descriptor is accepted, one that holds no index is not
    let frame = zstd::stream::encode_all(&[1u8, 2, 3][..], 0).unwrap();
    let mut vol = vec![0u8; 32];
    let at = vol.len() as u64;
    vol.extend_from_slice(&frame);
    vol.extend_from_slice(b"PARXINDEX\0");
    vol.extend_from_slice(&at.to_le_bytes());
    vol.extend_from_slice(&(frame.len() as u32).to_le_bytes());
    vol.extend_from_slice(&crc32fast::hash(&frame).to_le_bytes());
    assert_eq!(open_index(&vol, &limits).unwrap_err(), IndexError::Decode);
    let frame = zstd::stream::encode_all(&encode_entries(&two_entries(), true)[..], 0).unwrap();
    let mut vol = vec![0u8; 32];
    let at = vol.len() as u64;
    vol.extend_from_slice(&frame);
    vol.extend_from_slice(b"PARXINDEX\0");
    vol.extend_from_slice(&at.to_le_bytes());
    vol.extend_from_slice(&(frame.len() as u32).to_le_bytes());
    vol.extend_from_slice(&crc32fast::hash(&frame).to_le_bytes());
    assert_eq!(open_index(&vol, &limits).unwrap().len(), 2);
}

#[test]
fn manifest_backup_is_found_again() {
    let json = br#"{"chunk_size": 4096}"#.to_vec();
    let mut vol = vec![0u8; 32];
    let meta = append_manifest_backup(&mut vol, &json).unwrap();
    assert_eq!(meta.off, 32);
    assert_eq!(meta.len as usize, vol.len() - 32);
    assert_eq!(meta.crc32, crc32fast::hash(&vol[32..]));
    assert_eq!(zstd::stream::decode_all(&vol[32..]).unwrap(), json);
    write_index_and_trailer(&mut vol, &two_entries(), Some(meta)).unwrap();
    assert_eq!(read_manifest_backup_meta(&vol), Some(meta));
    assert_eq!(read_manifest_backup_json(&vol).unwrap(), Some(json));
    // the record stands right in front of the trailer
    let n = vol.len();
    let tlv = &vol[n - 26 - 25..n - 26];
    assert_eq!(&tlv[..9], b"PARXMBTL\0");
    assert_eq!(&tlv[9..17], &32u64.to_le_bytes());
    assert_eq!(&tlv[17..21], &meta.len.to_le_bytes());
    assert_eq!(&tlv[21..25], &meta.crc32.to_le_bytes());
    assert_eq!(open_index(&vol, &IndexLimits::default()).unwrap().len(), 2);
    // a damaged backup is reported
    let mut bad = vol.clone();
    bad[40] ^= 0xFF;
    assert_eq!(read_manifest_backup_json(&bad).unwrap_err(), IndexError::CrcMismatch);
    let outside = ManifestBackupMeta { off: 1 << 40, len: 5, crc32: 0 };
    let mut vol2 = vec![0u8; 32];
    write_index_and_trailer(&mut vol2, &two_entries(), Some(outside)).unwrap();
    assert_eq!(read_manifest_backup_json(&vol2).unwrap_err(), IndexError::OutOfBounds);
}

#[test]
fn volume_without_backup_has_none() {
    let vol = written_volume();
    assert_eq!(read_manifest_backup_meta(&vol), None);
    assert_eq!(read_manifest_backup_json(&vol).unwrap(), None);
    assert_eq!(read_manifest_backup_meta(&[]), None);
}

#[test]
fn header_layout_and_reading() {
    let h = simple_header(8, 4, 12);
    assert_eq!(h.len(), 32);
    assert_eq!(&h[..8], b"PARXVOL\0");
    assert_eq!(&h[8..12], &8u32.to_le_bytes());
    assert_eq!(&h[12..16], &4u32.to_le_bytes());
    assert_eq!(&h[16..20], &12u32.to_le_bytes());
    assert_eq!(&h[20..24], &1u32.to_le_bytes());
    assert_eq!(&h[24..28], &32u32.to_le_bytes());
    assert_eq!(&h[28..32], &0u32.to_le_bytes());
    let back = read_header(&h).unwrap();
    assert_eq!((back.k, back.m, back.entries_len), (8, 4, 12));
    assert_eq!((back.header_version, back.header_len, back.feature_flags), (1, 32, 0));
    assert_eq!(read_header(&h[..31]).unwrap_err(), HeaderError::TooShort);
    let mut bad = h.clone();
    bad[0] = b'X';
    assert_eq!(read_header(&bad).unwrap_err(), HeaderError::BadMagic);
    let mut bad = h.clone();
    bad[20] = 2;
    assert_eq!(read_header(&bad).unwrap_err(), HeaderError::Unsupported);
}

#[test]
fn header_record_of_earlier_layout_is_that_of_bincode() {
    let h = VolumeHeaderBin {
        k: 8,
        m: 4,
        chunk_size: 65536,
        total_chunks: 1234,
        volume_id: 2,
        entries_len: 77,
        manifest_hash: [9u8; 32],
    };
    let ours = encode_header_bin(&h);
    let theirs =
        bincode::serialize(&(8u32, 4u32, 65536u32, 1234u64, 2u32, 77u32, [9u8; 32])).unwrap();
    assert_eq!(ours, theirs);
    assert_eq!(ours.len(), 60);
    let back = decode_header_bin(&ours).unwrap();
    assert_eq!(back.k, 8);
    assert_eq!(back.m, 4);
    assert_eq!(back.chunk_size, 65536);
    assert_eq!(back.total_chunks, 1234);
    assert_eq!(back.volume_id, 2);
    assert_eq!(back.entries_len, 77);
    assert_eq!(back.manifest_hash, [9u8; 32]);
    assert!(decode_header_bin(&ours[..59]).is_err());
}

#[test]
fn volume_names() {
    assert_eq!(vol_name(0), "vol-000.parxv");
    assert_eq!(vol_name(7), "vol-007.parxv");
    assert_eq!(vol_name(42), "vol-042.parxv");
    assert_eq!(vol_name(999), "vol-999.parxv");
    assert_eq!(vol_name(1000), "vol-1000.parxv");
    assert_eq!(final_vol_name(3, 12), "vol-003+012.parxv");
    assert_eq!(final_vol_name(0, 0), "vol-000+000.parxv");
    assert_eq!(final_vol_name(10, 12345), "vol-010+12345.parxv");
}

#[test]
fn a_blob_is_appended_and_located() {
    let mut vol = vec![7u8; 40];
    let blob = [1u8, 2, 3, 4, 5];
    let meta = append_blob(&mut vol, &blob).unwrap();
    assert_eq!(meta, ManifestBackupMeta { off: 40, len: 5, crc32: crc32fast::hash(&blob) });
    assert_eq!(vol.len(), 45);
    assert_eq!(&vol[..40], &[7u8; 40][..]);
    assert_eq!(&vol[40..], &blob);
    let mut empty: Vec<u8> = Vec::new();
    let meta = append_blob(&mut empty, &[]).unwrap();
    assert_eq!(meta, ManifestBackupMeta { off: 0, len: 0, crc32: 0 });
    assert!(empty.is_empty());
}

#[test]
fn an_index_is_decompressed_only_up_to_the_bound() {
    // a frame that unfolds into a mebibyte
    let big: Vec<u8> = (0..1usize << 20).map(|i| 255 - (i / 4096) as u8).collect();
    let frame = zstd::stream::encode_all(&big[..], 3).unwrap();
    assert!(frame.len() < 100_000);
    let crc = crc32fast::hash(&frame);
    let len = frame.len() as u32;
    let small = IndexLimits { max_uncompressed_bytes: 1000, max_entries: 10 };
    assert_eq!(read_index(&frame, 0, len, crc, &small).unwrap_err(), IndexError::TooLarge);
    let edge = IndexLimits { max_uncompressed_bytes: (1 << 20) - 1, max_entries: 10 };
    assert_eq!(read_index(&frame, 0, len, crc, &edge).unwrap_err(), IndexError::TooLarge);
    // within the bound the bytes are looked at: they are no list of entries
    let wide = IndexLimits { max_uncompressed_bytes: 1 << 20, max_entries: 10 };
    assert_eq!(read_index(&frame, 0, len, crc, &wide).unwrap_err(), IndexError::Decode);
    let open = IndexLimits { max_uncompressed_bytes: usize::MAX, max_entries: 10 };
    assert_eq!(read_index(&frame, 0, len, crc, &open).unwrap_err(), IndexError::Decode);
    // a frame cut short gives too much before it gives out, or is refused
    let cut = &frame[..frame.len() - 5];
    let crc = crc32fast::hash(cut);
    let len = cut.len() as u32;
    assert_eq!(read_index(cut, 0, len, crc, &small).unwrap_err(), IndexError::TooLarge);
    assert_eq!(read_index(cut, 0, len, crc, &wide).unwrap_err(), IndexError::Compression);
    assert_eq!(read_index(cut, 0, len, crc, &open).unwrap_err(), IndexError::Compression);
    assert_eq!(read_index(b"junk", 0, 4, crc32fast::hash(b"junk"), &small).unwrap_err(),
        IndexError::Compression);
}
