use parx_core::chunker::chunk_file;
use parx_core::encode::{ConfigError, EncodeError, Encoded, Encoder, EncoderConfig, SourceFile};
use parx_core::hash::hash_chunk;
use parx_core::index::{open_index, read_index_count, read_trailer, IndexLimits};
use parx_core::manifest::{parity_shards, stripes_for, Manifest};
use parx_core::merkle::root;
use parx_core::path_safety::LinkFacts;
use parx_core::text::hex;
use parx_core::volume::{read_header, VolumeEntry};

fn no_links(mf: &Manifest) -> Vec<LinkFacts> {
    vec![LinkFacts { link_on_path: false, contained: true }; mf.files.len()]
}

fn cfg(chunk_size: usize, stripe_k: usize, parity_pct: u32, volumes: usize) -> EncoderConfig {
    EncoderConfig {
        chunk_size,
        stripe_k,
        parity_pct,
        volumes,
        outer_group: 0,
        outer_parity: 0,
        interleave_files: false,
    }
}

fn source(name: &str, data: Vec<u8>) -> SourceFile {
    SourceFile { rel_path: name.to_string(), data }
}

fn encode(files: &Vec<SourceFile>, cfg: &EncoderConfig) -> Encoded {
    let caps = vec![usize::MAX; cfg.volumes];
    Encoder::encode(files, cfg, &caps, ".parx", "2024-01-01T00:00:00+00:00").unwrap()
}

fn recompute_leaves(m: &Manifest, files: &Vec<SourceFile>) -> Vec<[u8; 32]> {
    let mut leaves = vec![[0u8; 32]; m.total_chunks as usize];
    for (fe, f) in m.files.iter().zip(files.iter()) {
        for ch in &fe.chunks {
            let mut buf = vec![0u8; m.chunk_size];
            let off = ch.file_offset as usize;
            buf[..ch.len as usize].copy_from_slice(&f.data[off..off + ch.len as usize]);
            let h = blake3::hash(&buf);
            assert_eq!(h.to_hex().to_string(), ch.hash_hex);
            leaves[ch.idx as usize] = *h.as_bytes();
        }
    }
    leaves
}

#[test]
fn encode_small_dataset_and_verify_manifest_merkle() {
    let files = vec![source("a.bin", vec![1u8; 10_000]), source("b.bin", vec![2u8; 7_000])];
    let cfg = cfg(4096, 4, 50, 2);
    let out = encode(&files, &cfg);
    let manifest = &out.manifest;

    // Recompute per-chunk hashes and Merkle root to check integrity
    let leaves = recompute_leaves(manifest, &files);
    let merkle = hex(&root(&leaves));
    assert_eq!(manifest.merkle_root_hex, merkle);

    // Sanity check volume indices parse
    let vols = Encoder::finish(&out.volumes, None).unwrap();
    assert_eq!(vols.len(), cfg.volumes);
    for v in &vols {
        let (off, len, crc) = read_trailer(v).unwrap();
        let count = read_index_count(v, off, len, crc, &IndexLimits::default()).unwrap();
        assert!(count > 0);
    }
}

#[test]
fn manifest_records_layout_and_totals() {
    let files = vec![source("a.bin", vec![1u8; 10_000]), source("b.bin", vec![2u8; 7_000])];
    let cfg = cfg(4096, 4, 50, 2);
    let m = encode(&files, &cfg).manifest;
    assert_eq!(m.created_utc, "2024-01-01T00:00:00+00:00");
    assert_eq!(m.parity_dir, ".parx");
    assert_eq!(m.chunk_size, 4096);
    assert_eq!(m.stripe_k, 4);
    assert_eq!(m.parity_pct, 50);
    assert_eq!(m.total_bytes, 17_000);
    assert_eq!(m.total_chunks, 5);
    assert_eq!(m.volumes, 2);
    assert_eq!(m.files.len(), 2);
    assert_eq!(m.files[0].rel_path, "a.bin");
    assert_eq!(m.files[0].size, 10_000);
    let a: Vec<(u64, u64, u32)> =
        m.files[0].chunks.iter().map(|c| (c.idx, c.file_offset, c.len)).collect();
    assert_eq!(a, vec![(0, 0, 4096), (1, 4096, 4096), (2, 8192, 1808)]);
    let b: Vec<(u64, u64, u32)> =
        m.files[1].chunks.iter().map(|c| (c.idx, c.file_offset, c.len)).collect();
    assert_eq!(b, vec![(3, 0, 4096), (4, 4096, 2904)]);
}

#[test]
fn chunk_hash_zero_padding_matches() {
    // Make a file that is not a multiple of chunk size
    let chunk_size = 4096usize;
    let data_len = chunk_size + (chunk_size / 2);
    let mut buf = vec![0u8; data_len];
    for (i, b) in buf.iter_mut().enumerate() {
        *b = (i as u8).wrapping_mul(31).wrapping_add(7);
    }
    let files = vec![source("file.bin", buf.clone())];
    let mf = encode(&files, &cfg(chunk_size, 4, 50, 2)).manifest;

    // Recompute hashes directly from source with zero-padding and compare
    for fe in &mf.files {
        for ch in &fe.chunks {
            let mut chunk = vec![0u8; mf.chunk_size];
            let off = ch.file_offset as usize;
            if ch.len > 0 {
                chunk[..ch.len as usize].copy_from_slice(&buf[off..off + ch.len as usize]);
            }
            let h = blake3::hash(&chunk);
            assert_eq!(h.to_hex().to_string(), ch.hash_hex);
        }
    }
    assert_eq!(mf.files[0].chunks.len(), 2);
    assert_eq!(mf.files[0].chunks[1].len as usize, chunk_size / 2);
    assert_eq!(
        mf.files[0].chunks[1].hash_hex,
        hex(&hash_chunk(&buf[chunk_size..], chunk_size))
    );
}

#[test]
fn parity_entry_len_within_bounds() {
    // Multiple files to ensure multi-stripe
    let files = vec![source("a.bin", vec![1u8; 32 * 1024]), source("b.bin", vec![2u8; 48 * 1024])];
    let cfg = cfg(4096, 4, 50, 3);
    let out = encode(&files, &cfg);
    let vols = Encoder::finish(&out.volumes, None).unwrap();

    // Inspect volume indices and ensure entry.len <= chunk_size and > 0
    let mut total = 0;
    for v in &vols {
        let entries = open_index(v, &IndexLimits::default()).unwrap();
        for e in &entries {
            assert!(e.len as usize <= cfg.chunk_size);
            assert!(e.len > 0);
        }
        total += entries.len();
    }
    // 20 chunks, 5 stripes, 2 parity shards each
    assert_eq!(total, 10);
}

#[test]
fn interleave_preserves_order_and_hashes() {
    // Make three files with distinct content
    let files = vec![
        source("a.bin", vec![1u8; 10 * 1024]),
        source("b.bin", vec![2u8; 10 * 1024]),
        source("c.bin", vec![3u8; 10 * 1024]),
    ];
    let cfg_seq = cfg(4096, 2, 50, 2);
    let mut cfg_il = cfg(4096, 2, 50, 2);
    cfg_il.interleave_files = true;
    let m1 = encode(&files, &cfg_seq).manifest;
    let m2 = encode(&files, &cfg_il).manifest;

    // Verify both pass
    let contents: Vec<Option<Vec<u8>>> = files.iter().map(|f| Some(f.data.clone())).collect();
    let v1 = parx_core::verify::verify(&m1, &contents, &no_links(&m1)).unwrap();
    assert_eq!(v1.chunks_bad, 0);
    assert!(v1.merkle_ok);
    let v2 = parx_core::verify::verify(&m2, &contents, &no_links(&m2)).unwrap();
    assert_eq!(v2.chunks_bad, 0);
    assert!(v2.merkle_ok);

    let idx = |m: &Manifest| -> Vec<Vec<u64>> {
        m.files.iter().map(|f| f.chunks.iter().map(|c| c.idx).collect()).collect()
    };
    assert_eq!(idx(&m1), vec![vec![0, 1, 2], vec![3, 4, 5], vec![6, 7, 8]]);
    assert_eq!(idx(&m2), vec![vec![0, 3, 6], vec![1, 4, 7], vec![2, 5, 8]]);
    // the same chunks, so the same digests, in another order
    for (f1, f2) in m1.files.iter().zip(m2.files.iter()) {
        for (c1, c2) in f1.chunks.iter().zip(f2.chunks.iter()) {
            assert_eq!(c1.hash_hex, c2.hash_hex);
            assert_eq!((c1.file_offset, c1.len), (c2.file_offset, c2.len));
        }
    }
    assert_ne!(m1.merkle_root_hex, m2.merkle_root_hex);
    // every global index once, in both modes
    for m in [&m1, &m2] {
        let mut all: Vec<u64> = idx(m).into_iter().flatten().collect();
        all.sort();
        assert_eq!(all, (0..m.total_chunks).collect::<Vec<u64>>());
    }
}

#[test]
fn interleave_with_files_of_different_length() {
    let files = vec![
        source("a.bin", vec![1u8; 100]),
        source("b.bin", vec![]),
        source("c.bin", vec![3u8; 350]),
    ];
    let mut c = cfg(100, 2, 50, 1);
    c.interleave_files = true;
    let m = encode(&files, &c).manifest;
    let idx: Vec<Vec<u64>> =
        m.files.iter().map(|f| f.chunks.iter().map(|c| c.idx).collect()).collect();
    assert_eq!(idx, vec![vec![0], vec![], vec![1, 2, 3, 4]]);
    assert_eq!(m.total_chunks, 5);
    assert_eq!(m.files[2].chunks[3].len, 50);
}

#[test]
fn empty_input_set() {
    let files: Vec<SourceFile> = vec![];
    let out = encode(&files, &cfg(4096, 4, 50, 2));
    assert_eq!(out.manifest.total_chunks, 0);
    assert_eq!(out.manifest.total_bytes, 0);
    assert_eq!(out.manifest.merkle_root_hex, blake3::hash(b"").to_hex().to_string());
    let vols = Encoder::finish(&out.volumes, None).unwrap();
    assert_eq!(vols.len(), 2);
    for v in &vols {
        let h = read_header(v).unwrap();
        assert_eq!((h.k, h.m, h.entries_len), (4, 2, 0));
        assert!(open_index(v, &IndexLimits::default()).unwrap().is_empty());
    }
}

#[test]
fn single_byte_file_with_one_mebibyte_chunks() {
    let files = vec![source("one.bin", vec![0x42])];
    let m = encode(&files, &cfg(1 << 20, 4, 50, 1)).manifest;
    assert_eq!(m.total_chunks, 1);
    assert_eq!(m.files[0].chunks.len(), 1);
    assert_eq!(m.files[0].chunks[0].len, 1);
    let mut padded = vec![0u8; 1 << 20];
    padded[0] = 0x42;
    assert_eq!(m.files[0].chunks[0].hash_hex, blake3::hash(&padded).to_hex().to_string());
    // one leaf: the root is that leaf
    assert_eq!(m.merkle_root_hex, m.files[0].chunks[0].hash_hex);
}

#[test]
fn no_parity_means_no_shards() {
    let files = vec![source("a.bin", vec![1u8; 10_000])];
    let c = cfg(4096, 4, 0, 2);
    assert_eq!(c.validate().unwrap(), 0);
    let out = encode(&files, &c);
    for w in &out.volumes {
        assert!(w.entries.is_empty());
        assert_eq!(w.image.len(), 32);
        assert_eq!(w.m, 0);
    }
    let contents: Vec<Option<Vec<u8>>> = files.iter().map(|f| Some(f.data.clone())).collect();
    let v = parx_core::verify::verify(&out.manifest, &contents, &no_links(&out.manifest)).unwrap();
    assert_eq!(v.chunks_bad, 0);
    assert!(v.merkle_ok);
}

#[test]
fn parity_count_follows_the_percentage() {
    assert_eq!(parity_shards(8, 50), Some(4));
    assert_eq!(parity_shards(8, 25), Some(2));
    assert_eq!(parity_shards(64, 35), Some(22));
    assert_eq!(parity_shards(4, 50), Some(2));
    assert_eq!(parity_shards(2, 50), Some(1));
    assert_eq!(parity_shards(3, 50), Some(2));
    assert_eq!(parity_shards(1, 1), Some(1));
    assert_eq!(parity_shards(10, 0), Some(0));
    assert_eq!(parity_shards(100, 100), Some(100));
    assert_eq!(parity_shards(10, 4), Some(1));
    assert_eq!(parity_shards(10, 15), Some(2));
    assert_eq!(parity_shards(10, 14), Some(1));
    assert_eq!(parity_shards(usize::MAX, 200), None);
    assert_eq!(stripes_for(0, 4), 0);
    assert_eq!(stripes_for(1, 4), 1);
    assert_eq!(stripes_for(4, 4), 1);
    assert_eq!(stripes_for(5, 4), 2);
    assert_eq!(stripes_for(20, 4), 5);
}

#[test]
fn bad_configurations_are_refused() {
    let files = vec![source("a.bin", vec![1u8; 100])];
    let run = |c: EncoderConfig, caps: Vec<usize>| -> EncodeError {
        match Encoder::encode(&files, &c, &caps, "out", "now") {
            Err(e) => e,
            Ok(_) => panic!("expected an error"),
        }
    };
    assert_eq!(run(cfg(0, 4, 50, 1), vec![9]), EncodeError::BadConfig(ConfigError::ChunkSize));
    assert_eq!(run(cfg(64, 0, 50, 1), vec![9]), EncodeError::BadConfig(ConfigError::StripeK));
    assert_eq!(run(cfg(64, 4, 101, 1), vec![9]), EncodeError::BadConfig(ConfigError::ParityPct));
    assert_eq!(run(cfg(64, 4, 50, 0), vec![]), EncodeError::BadConfig(ConfigError::Volumes));
    assert_eq!(
        run(cfg(64, 4, 50, 257), vec![9; 257]),
        EncodeError::BadConfig(ConfigError::Volumes)
    );
    assert_eq!(run(cfg(64, 200, 50, 1), vec![9]), EncodeError::BadConfig(ConfigError::ShardTotal));
    assert_eq!(run(cfg(64, 257, 0, 1), vec![9]), EncodeError::BadConfig(ConfigError::ShardTotal));
    let mut c = cfg(64, 100, 100, 1);
    c.outer_parity = 157;
    assert_eq!(run(c, vec![9]), EncodeError::BadConfig(ConfigError::OuterParity));
    assert_eq!(run(cfg(64, 4, 50, 2), vec![9]), EncodeError::BadConfig(ConfigError::Capacities));
    // the first check that fails is reported
    assert_eq!(run(cfg(0, 0, 101, 0), vec![]), EncodeError::BadConfig(ConfigError::ChunkSize));
    assert_eq!(cfg(64, 256, 0, 1).validate().unwrap(), 0);
    assert_eq!(cfg(64, 128, 100, 1).validate().unwrap(), 128);
}

#[test]
fn shards_are_placed_round_robin_and_described_by_their_entries() {
    let files = vec![source("a.bin", (0..40_000u32).map(|i| (i % 251) as u8).collect())];
    let c = cfg(4096, 4, 50, 3);
    let out = encode(&files, &c);
    // 10 chunks, 3 stripes, 2 inner shards each: stream of 6 shards over 3 volumes
    let per_volume: Vec<Vec<(u32, u16)>> = out
        .volumes
        .iter()
        .map(|w| w.entries.iter().map(|e| (e.stripe, e.parity_idx)).collect())
        .collect();
    assert_eq!(
        per_volume,
        vec![vec![(0, 0), (1, 1)], vec![(0, 1), (2, 0)], vec![(1, 0), (2, 1)]]
    );
    for w in &out.volumes {
        assert_eq!((w.k, w.m), (4, 2));
        let mut at = 32u64;
        for e in &w.entries {
            assert_eq!(e.offset, at);
            assert_eq!(e.len, 4096);
            let body = &w.image[e.offset as usize..(e.offset + e.len as u64) as usize];
            assert_eq!(e.hash, Some(*blake3::hash(body).as_bytes()));
            assert_eq!(e.outer_for_stripe, None);
            at += e.len as u64;
        }
        assert_eq!(at as usize, w.image.len());
    }
}

#[test]
fn capacities_are_honoured() {
    let files = vec![source("a.bin", vec![5u8; 12 * 100])];
    let c = cfg(100, 4, 50, 3);
    // 3 stripes, 6 shards; volume 1 takes one shard only, volume 2 none
    let caps = vec![100, 1, 0];
    let out = Encoder::encode(&files, &c, &caps, "out", "now").unwrap();
    let counts: Vec<usize> = out.volumes.iter().map(|w| w.entries.len()).collect();
    assert_eq!(counts, vec![5, 1, 0]);
    // where no volume has room left, volume 0 takes the rest
    let caps = vec![1, 1, 1];
    let out = Encoder::encode(&files, &c, &caps, "out", "now").unwrap();
    let counts: Vec<usize> = out.volumes.iter().map(|w| w.entries.len()).collect();
    assert_eq!(counts, vec![4, 1, 1]);
}

#[test]
fn parity_is_that_of_the_codec_over_padded_chunks() {
    let data: Vec<u8> = (0..1000u32).map(|i| (i * 7 % 256) as u8).collect();
    let files = vec![source("a.bin", data.clone())];
    let c = cfg(256, 3, 67, 1);
    let out = encode(&files, &c);
    assert_eq!(out.volumes[0].m, 2);
    // 4 chunks: stripe 0 holds chunks 0..3, stripe 1 chunk 3 and two zero shards
    let rs = reed_solomon_erasure::galois_8::ReedSolomon::new(3, 2).unwrap();
    let shard = |g: usize| -> Vec<u8> {
        let mut s = vec![0u8; 256];
        if g * 256 < data.len() {
            let end = (g * 256 + 256).min(data.len());
            s[..end - g * 256].copy_from_slice(&data[g * 256..end]);
        }
        s
    };
    for stripe in 0..2usize {
        let mut shards: Vec<Vec<u8>> = (0..3).map(|i| shard(stripe * 3 + i)).collect();
        shards.push(vec![0u8; 256]);
        shards.push(vec![0u8; 256]);
        rs.encode(&mut shards).unwrap();
        for pi in 0..2usize {
            let w = &out.volumes[0];
            let e: &VolumeEntry = w
                .entries
                .iter()
                .find(|e| e.stripe == stripe as u32 && e.parity_idx == pi as u16)
                .unwrap();
            let body = &w.image[e.offset as usize..e.offset as usize + e.len as usize];
            assert_eq!(body, &shards[3 + pi][..]);
            assert_ne!(body, &vec![0u8; 256][..]);
        }
    }
}

#[test]
fn outer_parity_is_parity_of_the_inner_parity() {
    let data: Vec<u8> = (0..2048u32).map(|i| (i * 13 % 256) as u8).collect();
    let files = vec![source("a.bin", data)];
    let mut c = cfg(256, 4, 50, 2);
    c.outer_parity = 2;
    let out = encode(&files, &c);
    let vols = Encoder::finish(&out.volumes, None).unwrap();
    let mut inner: Vec<Vec<Option<Vec<u8>>>> = vec![vec![None; 2]; 2];
    let mut outer: Vec<Vec<Option<Vec<u8>>>> = vec![vec![None; 2]; 2];
    for v in &vols {
        for e in open_index(v, &IndexLimits::default()).unwrap() {
            let body = v[e.offset as usize..e.offset as usize + e.len as usize].to_vec();
            if e.stripe == u32::MAX {
                outer[e.outer_for_stripe.unwrap() as usize][e.parity_idx as usize] = Some(body);
            } else {
                assert_eq!(e.outer_for_stripe, None);
                inner[e.stripe as usize][e.parity_idx as usize] = Some(body);
            }
        }
    }
    let rs = reed_solomon_erasure::galois_8::ReedSolomon::new(2, 2).unwrap();
    for s in 0..2 {
        let mut shards: Vec<Vec<u8>> =
            inner[s].iter().map(|x| x.clone().unwrap()).collect();
        shards.push(vec![0u8; 256]);
        shards.push(vec![0u8; 256]);
        rs.encode(&mut shards).unwrap();
        assert_eq!(outer[s][0].as_ref().unwrap(), &shards[2]);
        assert_eq!(outer[s][1].as_ref().unwrap(), &shards[3]);
    }
}

#[test]
fn encoding_is_deterministic() {
    let files = vec![
        source("a.bin", (0..9000u32).map(|i| (i % 256) as u8).collect()),
        source("b.bin", vec![9u8; 5000]),
    ];
    let mut c = cfg(1024, 4, 50, 3);
    c.outer_parity = 1;
    let one = encode(&files, &c);
    let two = encode(&files, &c);
    assert_eq!(one.manifest.merkle_root_hex, two.manifest.merkle_root_hex);
    let v1 = Encoder::finish(&one.volumes, Some(b"{}")).unwrap();
    let v2 = Encoder::finish(&two.volumes, Some(b"{}")).unwrap();
    assert_eq!(v1, v2);
}

#[test]
fn finished_volumes_read_back() {
    let files = vec![source("a.bin", vec![1u8; 10_000])];
    let c = cfg(4096, 4, 50, 2);
    let out = encode(&files, &c);
    let json = b"{\"k\": 4}".to_vec();
    let vols = Encoder::finish(&out.volumes, Some(&json)).unwrap();
    for (i, (v, w)) in vols.iter().zip(out.volumes.iter()).enumerate() {
        let h = read_header(v).unwrap();
        assert_eq!((h.k, h.m, h.entries_len as usize), (4, 2, w.entries.len()));
        let entries = open_index(v, &IndexLimits::default()).unwrap();
        assert_eq!(entries.len(), w.entries.len());
        for (a, b) in entries.iter().zip(w.entries.iter()) {
            assert_eq!((a.stripe, a.parity_idx, a.offset, a.len), (b.stripe, b.parity_idx, b.offset, b.len));
            assert_eq!(a.hash, b.hash);
            let body = &v[a.offset as usize..a.offset as usize + a.len as usize];
            assert_eq!(body, &w.image[a.offset as usize..a.offset as usize + a.len as usize]);
        }
        let backup = parx_core::index::read_manifest_backup_json(v).unwrap();
        if i == 0 {
            assert_eq!(backup, Some(json.clone()));
        } else {
            assert_eq!(backup, None);
        }
    }
}

#[test]
fn chunker_splits_and_hashes() {
    let data: Vec<u8> = (0..10u8).collect();
    let plan = chunk_file(&data, 4);
    let shape: Vec<(u64, u32)> = plan.iter().map(|c| (c.file_offset, c.len)).collect();
    assert_eq!(shape, vec![(0, 4), (4, 4), (8, 2)]);
    assert_eq!(plan[0].hash, *blake3::hash(&[0, 1, 2, 3]).as_bytes());
    assert_eq!(plan[2].hash, *blake3::hash(&[8, 9, 0, 0]).as_bytes());
    assert!(chunk_file(&[], 4).is_empty());
    assert_eq!(chunk_file(&data, 10).len(), 1);
    assert_eq!(chunk_file(&data, 11).len(), 1);
}
