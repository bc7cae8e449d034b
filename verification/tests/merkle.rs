use blake3::hash;
use parx_core::hash::{hash_chunk, pad_chunk};
use parx_core::manifest::ChunkRef;
use parx_core::merkle::root;
use parx_core::text::hex;
use parx_core::volume::{
    decode_entries, decode_entries_anyver, decode_entries_v1, encode_entries, DecodeError,
    VolumeEntry, VolumeEntryV1,
};

fn sample_entry() -> VolumeEntry {
    VolumeEntry {
        stripe: 123,
        parity_idx: 2,
        offset: 4096,
        len: 65536,
        hash: Some(*hash(b"xyz").as_bytes()),
        outer_for_stripe: None,
    }
}

#[test]
fn volume_entry_bincode_roundtrip() {
    let e = sample_entry();
    let bin = encode_entries(&[e], true);
    let de = decode_entries(&bin, true).unwrap();
    assert_eq!(de.len(), 1);
    let de = de[0];
    assert_eq!(de.stripe, 123);
    assert_eq!(de.parity_idx, 2);
    assert_eq!(de.offset, 4096);
    assert_eq!(de.len, 65536);
    assert_eq!(de.hash.unwrap(), *hash(b"xyz").as_bytes());
}

#[test]
fn entry_bytes_are_those_of_bincode() {
    let h = *hash(b"xyz").as_bytes();
    let entries = vec![
        sample_entry(),
        VolumeEntry {
            stripe: u32::MAX,
            parity_idx: 1,
            offset: 70_000,
            len: 65536,
            hash: None,
            outer_for_stripe: Some(7),
        },
    ];
    let as_tuples: Vec<(u32, u16, u64, u32, Option<[u8; 32]>, Option<u32>)> = vec![
        (123, 2, 4096, 65536, Some(h), None),
        (u32::MAX, 1, 70_000, 65536, None, Some(7)),
    ];
    let ours = encode_entries(&entries, true);
    let theirs = bincode::serialize(&as_tuples).unwrap();
    assert_eq!(ours, theirs);
    let back: Vec<(u32, u16, u64, u32, Option<[u8; 32]>, Option<u32>)> =
        bincode::deserialize(&ours).unwrap();
    assert_eq!(back, as_tuples);
}

#[test]
fn entry_bytes_exact_layout() {
    let e = VolumeEntry {
        stripe: 1,
        parity_idx: 2,
        offset: 3,
        len: 4,
        hash: None,
        outer_for_stripe: Some(5),
    };
    let bytes = encode_entries(&[e], true);
    let want: Vec<u8> = vec![
        1, 0, 0, 0, 0, 0, 0, 0, // one entry
        1, 0, 0, 0, // stripe
        2, 0, // parity index
        3, 0, 0, 0, 0, 0, 0, 0, // offset
        4, 0, 0, 0, // length
        0, // no hash
        1, 5, 0, 0, 0, // outer for stripe 5
    ];
    assert_eq!(bytes, want);
    let v1 = encode_entries(&[e], false);
    assert_eq!(v1, want[..27].to_vec());
}

#[test]
fn decode_rejects_truncated_and_bad_tags() {
    let bytes = encode_entries(&[sample_entry()], true);
    for cut in 0..bytes.len() {
        assert_eq!(decode_entries(&bytes[..cut], true).unwrap_err(), DecodeError::Malformed);
    }
    let mut bad = bytes.clone();
    bad[8 + 18] = 2; // tag of the optional hash
    assert_eq!(decode_entries(&bad, true).unwrap_err(), DecodeError::Malformed);
    // trailing bytes are ignored
    let mut longer = bytes.clone();
    longer.extend_from_slice(&[9, 9, 9]);
    assert_eq!(decode_entries(&longer, true).unwrap().len(), 1);
}

#[test]
fn decode_anyver_falls_back_to_earlier_layout() {
    let v1 = VolumeEntryV1 {
        stripe: 9,
        parity_idx: 3,
        offset: 32,
        len: 16,
        hash: Some([7u8; 32]),
    };
    let as_entry = VolumeEntry::from(v1);
    assert_eq!(as_entry.outer_for_stripe, None);
    let bytes = encode_entries(&[as_entry], false);
    // one entry of the earlier layout is too short for the current one
    assert!(decode_entries(&bytes, true).is_err());
    let got = decode_entries_anyver(&bytes).unwrap();
    assert_eq!(got.len(), 1);
    assert_eq!(got[0].stripe, 9);
    assert_eq!(got[0].parity_idx, 3);
    assert_eq!(got[0].offset, 32);
    assert_eq!(got[0].len, 16);
    assert_eq!(got[0].hash, Some([7u8; 32]));
    assert_eq!(got[0].outer_for_stripe, None);
    let v1s = decode_entries_v1(&bytes).unwrap();
    assert_eq!(v1s.len(), 1);
    assert_eq!(v1s[0].stripe, 9);
    assert!(decode_entries_anyver(&[1, 0, 0]).is_err());
}

#[test]
fn default_entry_is_all_zero() {
    let e = VolumeEntry::default();
    assert_eq!(e.stripe, 0);
    assert_eq!(e.parity_idx, 0);
    assert_eq!(e.offset, 0);
    assert_eq!(e.len, 0);
    assert!(e.hash.is_none());
    assert!(e.outer_for_stripe.is_none());
}

#[test]
fn merkle_root_of_nothing_is_hash_of_empty() {
    assert_eq!(root(&[]), *hash(b"").as_bytes());
}

#[test]
fn merkle_root_of_one_leaf_is_that_leaf() {
    let leaf = *hash(b"leaf").as_bytes();
    assert_eq!(root(&[leaf]), leaf);
}

#[test]
fn merkle_root_pairs_and_duplicates_last() {
    let a = *hash(b"a").as_bytes();
    let b = *hash(b"b").as_bytes();
    let c = *hash(b"c").as_bytes();
    let node = |l: &[u8; 32], r: &[u8; 32]| -> [u8; 32] {
        let mut cat = [0u8; 64];
        cat[..32].copy_from_slice(l);
        cat[32..].copy_from_slice(r);
        *hash(&cat).as_bytes()
    };
    assert_eq!(root(&[a, b]), node(&a, &b));
    let ab = node(&a, &b);
    let cc = node(&c, &c);
    assert_eq!(root(&[a, b, c]), node(&ab, &cc));
    // the order of the leaves matters
    assert_ne!(root(&[a, b]), root(&[b, a]));
}

#[test]
fn chunk_hash_uses_zero_padding() {
    let data = b"hello";
    let mut padded = vec![0u8; 16];
    padded[..5].copy_from_slice(data);
    assert_eq!(pad_chunk(data, 16), padded);
    assert_eq!(hash_chunk(data, 16), *hash(&padded).as_bytes());
    assert_ne!(hash_chunk(data, 16), *hash(data).as_bytes());
    // a full chunk is hashed as it is
    assert_eq!(hash_chunk(data, 5), *hash(data).as_bytes());
}

#[test]
fn single_byte_file_with_large_chunk() {
    let chunk_size = 1 << 20;
    let padded = pad_chunk(&[0xAB], chunk_size);
    assert_eq!(padded.len(), chunk_size);
    assert_eq!(padded[0], 0xAB);
    assert!(padded[1..].iter().all(|b| *b == 0));
    assert_eq!(hash_chunk(&[0xAB], chunk_size), *hash(&padded).as_bytes());
    assert_eq!(hash_chunk(&[0xAB], chunk_size), hash_chunk(&[0xAB], chunk_size));
}

#[test]
fn hex_is_lowercase_two_digits_per_byte() {
    assert_eq!(hex(&[]), "");
    assert_eq!(hex(&[0x00, 0x0f, 0xa5, 0xff]), "000fa5ff");
    let h = hash(b"xyz");
    assert_eq!(hex(h.as_bytes()), h.to_hex().to_string());
}

#[test]
fn chunkref_json_roundtrip() {
    // a chunk reference under the field names of the catalog
    let c = ChunkRef { idx: 7, file_offset: 1024, len: 2048, hash_hex: "abcd".into() };
    let mut obj = serde_json::Map::new();
    obj.insert("idx".to_string(), serde_json::Value::from(c.idx));
    obj.insert("file_offset".to_string(), serde_json::Value::from(c.file_offset));
    obj.insert("len".to_string(), serde_json::Value::from(c.len));
    obj.insert("hash_hex".to_string(), serde_json::Value::from(c.hash_hex.clone()));
    let s = serde_json::to_string(&serde_json::Value::Object(obj)).unwrap();
    let v: serde_json::Value = serde_json::from_str(&s).unwrap();
    let d = ChunkRef {
        idx: v["idx"].as_u64().unwrap(),
        file_offset: v["file_offset"].as_u64().unwrap(),
        len: v["len"].as_u64().unwrap() as u32,
        hash_hex: v["hash_hex"].as_str().unwrap().to_string(),
    };
    assert_eq!(d.idx, 7);
    assert_eq!(d.file_offset, 1024);
    assert_eq!(d.len, 2048);
    assert_eq!(d.hash_hex, "abcd");
}
