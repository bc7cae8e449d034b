use parx_core::damage::damage_audit;
use parx_core::encode::{Encoder, EncoderConfig, SourceFile};
use parx_core::manifest::Manifest;
use parx_core::parity_audit::audit;
use parx_core::index::{open_index, IndexError, IndexLimits};
use parx_core::legacy::VolumeStatus;
use parx_core::path_safety::{LinkFacts, PathError, PathPolicy};
use parx_core::repair::{
    chunk_replacement, repair, repair_with_limits, repair_with_policy, RepairError, StripeOutcome,
};
use parx_core::verify::{
    digest_is, is_ok, verify, verify_contents, verify_with_manifest, verify_with_policy,
    VerifyError,
};

fn no_links(mf: &Manifest) -> Vec<LinkFacts> {
    vec![LinkFacts { link_on_path: false, contained: true }; mf.files.len()]
}

fn cfg(chunk_size: usize, stripe_k: usize, parity_pct: u32, volumes: usize) -> EncoderConfig {
    EncoderConfig {
        chunk_size,
        stripe_k,
        parity_pct,
        volumes,
        outer_group: 0,
        outer_parity: 0,
        interleave_files: false,
    }
}

fn make_set(
    files: &[(&str, Vec<u8>)],
    cfg: &EncoderConfig,
) -> (Manifest, Vec<Option<Vec<u8>>>, Vec<Vec<u8>>) {
    let sources: Vec<SourceFile> = files
        .iter()
        .map(|(n, d)| SourceFile { rel_path: n.to_string(), data: d.clone() })
        .collect();
    let caps = vec![usize::MAX; cfg.volumes];
    let out = Encoder::encode(&sources, cfg, &caps, ".parx", "2024-01-01T00:00:00Z").unwrap();
    let vols = Encoder::finish(&out.volumes, None).unwrap();
    let contents = files.iter().map(|(_, d)| Some(d.clone())).collect();
    (out.manifest, contents, vols)
}

fn overwrite(file: &mut Option<Vec<u8>>, off: usize, len: usize, byte: u8) {
    let d = file.as_mut().unwrap();
    for b in &mut d[off..off + len] {
        *b = byte;
    }
}

#[test]
fn verify_then_repair_simple_corruption() {
    // Two files with distinct bytes
    let (manifest, mut files, vols) = make_set(
        &[("a.bin", vec![1u8; 32 * 1024]), ("b.bin", vec![2u8; 32 * 1024])],
        &cfg(4096, 4, 50, 2),
    );
    let intact = files.clone();

    // Verify OK initially
    let vr = verify(&manifest, &files, &no_links(&manifest)).unwrap();
    assert_eq!(vr.chunks_bad, 0);
    assert!(vr.merkle_ok);
    assert!(is_ok(&vr));

    // Corrupt 2 KiB in middle of b.bin
    overwrite(&mut files[1], 8 * 1024, 2 * 1024, 0xA5);

    // Verify now detects bad chunks
    let vr2 = verify(&manifest, &files, &no_links(&manifest)).unwrap();
    assert!(vr2.chunks_bad > 0);
    assert_eq!(vr2.chunks_bad, 1);
    assert_eq!(vr2.chunks_ok, 15);
    assert!(!vr2.merkle_ok);
    assert!(!is_ok(&vr2));

    // Attempt repair
    let out = repair(&manifest, &files, &vols, &no_links(&manifest)).unwrap();
    assert!(out.report.repaired_chunks >= 1);
    assert_eq!(out.report.repaired_chunks, 1);
    assert_eq!(out.report.failed_chunks, 0);
    assert_eq!(out.changed, vec![false, true]);

    // Verify OK again
    let vr3 = verify(&manifest, &out.files, &no_links(&manifest)).unwrap();
    assert_eq!(vr3.chunks_bad, 0);
    assert!(vr3.merkle_ok);
    assert_eq!(out.files, intact);
}

#[test]
fn repair_single_file_bitflip() {
    // Single file with random data (~8 MiB)
    let mut buf = vec![0u8; 8 * 1024 * 1024];
    fastrand::seed(0x1BADF00Du64);
    for b in &mut buf {
        *b = fastrand::u8(..);
    }
    let (manifest, mut files, vols) = make_set(&[("single.bin", buf.clone())], &cfg(65536, 8, 25, 3));

    // Flip a random 4 KiB page
    let sz = buf.len() as u64;
    let off = ((fastrand::u64(..(sz - 4096))) / 4096) * 4096; // page aligned
    let mut flip = vec![0u8; 4096];
    fastrand::seed(0xC0FFEEu64);
    for b in &mut flip {
        *b = fastrand::u8(..);
    }
    files[0].as_mut().unwrap()[off as usize..off as usize + 4096].copy_from_slice(&flip);

    // Verify now detects bad chunks
    let vr2 = verify(&manifest, &files, &no_links(&manifest)).unwrap();
    assert!(vr2.chunks_bad > 0);

    // Attempt repair
    let out = repair(&manifest, &files, &vols, &no_links(&manifest)).unwrap();
    assert!(
        out.report.repaired_chunks >= 1,
        "expected at least one repaired chunk: {:?}",
        out.report
    );
    assert_eq!(out.report.repaired_chunks, vr2.chunks_bad);

    // Verify OK again
    let vr3 = verify(&manifest, &out.files, &no_links(&manifest)).unwrap();
    assert_eq!(vr3.chunks_bad, 0);
    assert!(vr3.merkle_ok);
    assert_eq!(out.files[0].as_ref().unwrap(), &buf);
}

#[test]
fn multi_stripe_repair_succeeds() {
    // Create data to span several stripes
    let (manifest, mut files, vols) =
        make_set(&[("big.bin", vec![9u8; 256 * 1024])], &cfg(4096, 4, 50, 3));

    // Corrupt multiple regions across stripes
    for off in [8 * 1024usize, 24 * 1024, 40 * 1024] {
        overwrite(&mut files[0], off, 2048, 0x5A);
    }

    // Verify detects
    let vr = verify(&manifest, &files, &no_links(&manifest)).unwrap();
    assert!(vr.chunks_bad > 0);
    assert_eq!(vr.chunks_bad, 3);
    // Repair
    let out = repair(&manifest, &files, &vols, &no_links(&manifest)).unwrap();
    assert!(out.report.repaired_chunks >= 1);
    assert_eq!(out.report.repaired_chunks, 3);
    assert_eq!(out.stripes.len(), 16);
    assert_eq!(out.stripes[0], StripeOutcome::InnerRepaired);
    assert_eq!(out.stripes[1], StripeOutcome::InnerRepaired);
    assert_eq!(out.stripes[2], StripeOutcome::InnerRepaired);
    assert_eq!(out.stripes[3], StripeOutcome::Untouched);
    // Verify OK
    let vr2 = verify(&manifest, &out.files, &no_links(&manifest)).unwrap();
    assert_eq!(vr2.chunks_bad, 0);
    assert!(vr2.merkle_ok);
}

#[test]
fn create_verify_repair_happy_path() {
    // three files of 64 KiB each, 4 KiB corrupted at offset 8 KiB in b.bin
    let gen = |seed: u8| -> Vec<u8> {
        (0..64 * 1024usize).map(|i| (i as u8).wrapping_mul(31).wrapping_add(seed)).collect()
    };
    let (manifest, mut files, vols) = make_set(
        &[("a.bin", gen(1)), ("b.bin", gen(2)), ("c.bin", gen(3))],
        &cfg(65536, 8, 50, 3),
    );
    assert!(is_ok(&verify(&manifest, &files, &no_links(&manifest)).unwrap()));
    let good = damage_audit(&manifest, &files).unwrap();
    assert!(good.repairable);
    assert_eq!(good.m, 4);
    assert_eq!(good.total_bad, 0);
    overwrite(&mut files[1], 8 * 1024, 4096, 0xEE);
    let bad = damage_audit(&manifest, &files).unwrap();
    assert!(bad.repairable);
    assert_eq!((bad.total_bad, bad.worst, bad.shortfall), (1, 1, 0));
    assert_eq!(bad.per_stripe, vec![1]);
    let out = repair(&manifest, &files, &vols, &no_links(&manifest)).unwrap();
    assert!(is_ok(&verify(&manifest, &out.files, &no_links(&manifest)).unwrap()));
}

#[test]
fn too_much_damage_in_one_stripe_is_not_repaired() {
    let data: Vec<u8> = (0..16 * 1024usize).map(|i| (i % 253) as u8).collect();
    let (manifest, mut files, vols) = make_set(&[("a.bin", data)], &cfg(1024, 4, 50, 2));
    // stripe 0: three of four chunks damaged, M = 2
    overwrite(&mut files[0], 0, 3 * 1024, 0xFF);
    // stripe 2: one chunk damaged
    overwrite(&mut files[0], 8 * 1024, 10, 0xFF);
    let rep = damage_audit(&manifest, &files).unwrap();
    assert_eq!(rep.per_stripe, vec![3, 0, 1, 0]);
    assert_eq!((rep.total_bad, rep.worst, rep.m), (4, 3, 2));
    assert!(!rep.repairable);
    assert_eq!(rep.shortfall, 1);
    let out = repair(&manifest, &files, &vols, &no_links(&manifest)).unwrap();
    assert_eq!(out.report.repaired_chunks, 1);
    assert_eq!(out.report.failed_chunks, 3);
    assert_eq!(
        out.stripes,
        vec![
            StripeOutcome::Unrepairable,
            StripeOutcome::Untouched,
            StripeOutcome::InnerRepaired,
            StripeOutcome::Untouched
        ]
    );
    let after = verify(&manifest, &out.files, &no_links(&manifest)).unwrap();
    assert_eq!(after.chunks_bad, 3);
    // a second run repairs nothing more
    let again = repair(&manifest, &out.files, &vols, &no_links(&manifest)).unwrap();
    assert_eq!(again.report.repaired_chunks, 0);
    assert_eq!(again.report.failed_chunks, 3);
    assert_eq!(again.files, out.files);
}

#[test]
fn repairing_twice_repairs_nothing_more() {
    let (manifest, mut files, vols) =
        make_set(&[("a.bin", vec![4u8; 20_000])], &cfg(4096, 4, 50, 2));
    overwrite(&mut files[0], 5000, 100, 0);
    let first = repair(&manifest, &files, &vols, &no_links(&manifest)).unwrap();
    assert_eq!(first.report.repaired_chunks, 1);
    let second = repair(&manifest, &first.files, &vols, &no_links(&manifest)).unwrap();
    assert_eq!(second.report.repaired_chunks, 0);
    assert_eq!(second.report.failed_chunks, 0);
    assert_eq!(second.changed, vec![false]);
    assert!(second.stripes.iter().all(|s| *s == StripeOutcome::Untouched));
}

#[test]
fn missing_file_is_restored() {
    let parts: Vec<(String, Vec<u8>)> = (0..8usize)
        .map(|p| {
            let data: Vec<u8> = (0..5000usize).map(|i| ((i * (p + 3)) % 251) as u8).collect();
            (format!("part-{:03}.bin", p), data)
        })
        .collect();
    let named: Vec<(&str, Vec<u8>)> = parts.iter().map(|(n, d)| (n.as_str(), d.clone())).collect();
    let mut c = cfg(1024, 16, 35, 3);
    c.interleave_files = true;
    let (manifest, mut files, vols) = make_set(&named, &c);
    files[2] = None;
    let found = verify(&manifest, &files, &no_links(&manifest)).unwrap();
    assert_eq!(found.chunks_bad, 5);
    let rep = damage_audit(&manifest, &files).unwrap();
    assert!(rep.repairable);
    let out = repair(&manifest, &files, &vols, &no_links(&manifest)).unwrap();
    assert_eq!(out.report.repaired_chunks, 5);
    assert_eq!(out.files[2].as_ref().unwrap(), &parts[2].1);
    assert!(is_ok(&verify(&manifest, &out.files, &no_links(&manifest)).unwrap()));
}

#[test]
fn end_to_end_outer_rs_flow() {
    // outer parity recovers inner parity that was lost with a volume
    let data: Vec<u8> = (0..8 * 512usize).map(|i| (i * 7 % 256) as u8).collect();
    let mut c = cfg(512, 8, 25, 4);
    c.outer_parity = 2;
    let (manifest, mut files, mut vols) = make_set(&[("big.bin", data.clone())], &c);
    // one stripe, M = 2, O = 2: shards go to volumes 0, 1 (inner) and 2, 3 (outer)
    overwrite(&mut files[0], 0, 512, 0x11);
    overwrite(&mut files[0], 512, 512, 0x22);
    // lose the volume with inner parity 0: inner repair alone has 6 + 1 < 8 shards
    vols[0] = vec![];
    let out = repair(&manifest, &files, &vols, &no_links(&manifest)).unwrap();
    assert_eq!(out.stripes, vec![StripeOutcome::OuterRecovered]);
    assert_eq!(out.report.repaired_chunks, 2);
    assert_eq!(out.files[0].as_ref().unwrap(), &data);
    assert!(is_ok(&verify(&manifest, &out.files, &no_links(&manifest)).unwrap()));
    // without outer parity left either, the stripe cannot be repaired
    vols[2] = vec![];
    vols[3] = vec![];
    let lost = repair(&manifest, &files, &vols, &no_links(&manifest)).unwrap();
    assert_eq!(lost.stripes, vec![StripeOutcome::Unrepairable]);
    assert_eq!(lost.report.failed_chunks, 2);
    assert_eq!(lost.files, files);
}

#[test]
fn short_last_stripe_is_repaired() {
    // 5 chunks with K = 4: the last stripe holds one chunk and three zero shards
    let data: Vec<u8> = (0..5 * 256usize - 56).map(|i| (i % 199) as u8).collect();
    let (manifest, mut files, vols) = make_set(&[("a.bin", data.clone())], &cfg(256, 4, 50, 1));
    overwrite(&mut files[0], 4 * 256, 10, 0x77);
    let out = repair(&manifest, &files, &vols, &no_links(&manifest)).unwrap();
    assert_eq!(out.stripes, vec![StripeOutcome::Untouched, StripeOutcome::InnerRepaired]);
    assert_eq!(out.files[0].as_ref().unwrap(), &data);
}

#[test]
fn truncated_file_is_grown_back() {
    let data: Vec<u8> = (0..3000usize).map(|i| (i % 97) as u8 + 1).collect();
    let (manifest, mut files, vols) = make_set(&[("a.bin", data.clone())], &cfg(1024, 4, 50, 1));
    files[0].as_mut().unwrap().truncate(2500);
    let found = verify(&manifest, &files, &no_links(&manifest)).unwrap();
    assert_eq!(found.chunks_bad, 1);
    let out = repair(&manifest, &files, &vols, &no_links(&manifest)).unwrap();
    assert_eq!(out.files[0].as_ref().unwrap(), &data);
}

#[test]
fn damaged_parity_shards_are_passed_over() {
    let data: Vec<u8> = (0..4096usize).map(|i| (i % 241) as u8).collect();
    let (manifest, mut files, mut vols) = make_set(&[("a.bin", data.clone())], &cfg(1024, 4, 50, 2));
    overwrite(&mut files[0], 0, 16, 0xAB);
    // damage the body of the shard on volume 0: its digest no longer matches
    vols[0][40] ^= 0xFF;
    let out = repair(&manifest, &files, &vols, &no_links(&manifest)).unwrap();
    // the other parity shard is enough for one damaged chunk
    assert_eq!(out.report.repaired_chunks, 1);
    assert_eq!(out.files[0].as_ref().unwrap(), &data);
    // two damaged chunks need both
    overwrite(&mut files[0], 1024, 16, 0xAB);
    let out = repair(&manifest, &files, &vols, &no_links(&manifest)).unwrap();
    assert_eq!(out.report.repaired_chunks, 0);
    assert_eq!(out.report.failed_chunks, 2);
    assert_eq!(out.stripes, vec![StripeOutcome::Unrepairable]);
}

#[test]
fn repair_refuses_what_it_cannot_work_on() {
    let (mut manifest, files, vols) = make_set(&[("a.bin", vec![1u8; 5000])], &cfg(1024, 4, 0, 1));
    // no parity
    assert_eq!(repair(&manifest, &files, &vols, &no_links(&manifest)).unwrap_err(), RepairError::BadConfig);
    assert!(verify(&manifest, &files, &no_links(&manifest)).is_ok());
    manifest.parity_pct = 50;
    assert_eq!(repair(&manifest, &vec![], &vols, &no_links(&manifest)).unwrap_err(), RepairError::FileCount);
    manifest.files[0].rel_path = "../escape.txt".to_string();
    assert_eq!(
        repair(&manifest, &files, &vols, &no_links(&manifest)).unwrap_err(),
        RepairError::UnsafePath(PathError::ParentTraversal)
    );
    manifest.files[0].rel_path = "a.bin".to_string();
    manifest.files[0].chunks[1].idx = 0;
    assert_eq!(repair(&manifest, &files, &vols, &no_links(&manifest)).unwrap_err(), RepairError::BadManifest);
    manifest.files[0].chunks[1].idx = 1;
    manifest.chunk_size = 0;
    assert_eq!(repair(&manifest, &files, &vols, &no_links(&manifest)).unwrap_err(), RepairError::BadConfig);
    manifest.chunk_size = 1024;
    assert!(repair_with_limits(&manifest, &files, &vols, &IndexLimits::default()).is_ok());
}

#[test]
fn verify_rejects_escape_path() {
    let (mut manifest, files, _) = make_set(&[("a.bin", vec![1u8; 5000])], &cfg(1024, 4, 50, 1));
    manifest.files[0].rel_path = "../escape.txt".to_string();
    assert_eq!(
        verify_contents(&manifest, &files).unwrap_err(),
        VerifyError::UnsafePath(PathError::ParentTraversal)
    );
    for follow in [false, true] {
        let policy = PathPolicy { follow_symlinks: follow };
        let found = vec![LinkFacts { link_on_path: false, contained: true }];
        assert_eq!(
            verify_with_policy(&manifest, &files, policy, &found).unwrap_err(),
            VerifyError::UnsafePath(PathError::ParentTraversal)
        );
    }
    manifest.files[0].rel_path = "/abs/a.bin".to_string();
    assert_eq!(
        verify(&manifest, &files, &no_links(&manifest)).unwrap_err(),
        VerifyError::UnsafePath(PathError::Absolute)
    );
}

#[test]
fn verify_rejects_symlink_by_default_allows_with_flag_when_contained() {
    let (manifest, files, vols) = make_set(&[("safe/file.txt", b"hello\n".to_vec())], &cfg(1024, 2, 50, 1));
    let found = vec![LinkFacts { link_on_path: true, contained: true }];
    // Default policy: symlink should be rejected
    let err = verify_with_policy(&manifest, &files, PathPolicy::default(), &found).unwrap_err();
    assert_eq!(err, VerifyError::UnsafePath(PathError::Symlink));
    assert_eq!(
        repair_with_policy(&manifest, &files, &vols, PathPolicy::default(), &found).unwrap_err(),
        RepairError::UnsafePath(PathError::Symlink)
    );
    // With follow_symlinks: allowed if contained under root
    let policy = PathPolicy { follow_symlinks: true };
    let rep = verify_with_policy(&manifest, &files, policy, &found).unwrap();
    assert!(rep.merkle_ok);
    assert!(repair_with_policy(&manifest, &files, &vols, policy, &found).is_ok());
}

#[test]
fn verify_blocks_symlink_escape_even_when_following() {
    let (manifest, files, _) = make_set(&[("evil/outside.txt", b"hello\n".to_vec())], &cfg(1024, 2, 50, 1));
    let found = vec![LinkFacts { link_on_path: true, contained: false }];
    let policy = PathPolicy { follow_symlinks: true };
    let err = verify_with_policy(&manifest, &files, policy, &found).unwrap_err();
    assert_eq!(err, VerifyError::UnsafePath(PathError::EscapesRoot));
    assert_eq!(
        verify_with_policy(&manifest, &files, policy, &vec![]).unwrap_err(),
        VerifyError::FileCount
    );
}

#[test]
fn verify_refuses_manifests_with_bad_indices() {
    let (manifest, files, _) = make_set(&[("a.bin", vec![1u8; 5000])], &cfg(1024, 4, 50, 1));
    assert_eq!(verify(&manifest, &vec![], &no_links(&manifest)).unwrap_err(), VerifyError::FileCount);
    let mut dup = manifest.clone();
    dup.files[0].chunks[1].idx = 0;
    assert_eq!(verify(&dup, &files, &no_links(&dup)).unwrap_err(), VerifyError::BadManifest);
    let mut out_of_range = manifest.clone();
    out_of_range.files[0].chunks[4].idx = 5;
    assert_eq!(verify(&out_of_range, &files, &no_links(&out_of_range)).unwrap_err(), VerifyError::BadManifest);
    let mut short = manifest.clone();
    short.total_chunks = 6;
    assert_eq!(verify(&short, &files, &no_links(&short)).unwrap_err(), VerifyError::BadManifest);
    let mut wrong_root = manifest.clone();
    wrong_root.merkle_root_hex = "00".repeat(32);
    let rep = verify(&wrong_root, &files, &no_links(&wrong_root)).unwrap();
    assert_eq!(rep.chunks_bad, 0);
    assert!(!rep.merkle_ok);
    assert!(!is_ok(&rep));
}

#[test]
fn missing_file_counts_all_its_chunks_bad() {
    let (manifest, mut files, _) = make_set(
        &[("a.bin", vec![1u8; 5000]), ("b.bin", vec![2u8; 3000])],
        &cfg(1024, 4, 50, 1),
    );
    files[1] = None;
    let rep = verify(&manifest, &files, &no_links(&manifest)).unwrap();
    assert_eq!((rep.chunks_ok, rep.chunks_bad), (5, 3));
    assert!(!rep.merkle_ok);
}

#[test]
fn parity_audit_counts_entries_per_stripe() {
    let data: Vec<u8> = (0..12 * 256usize).map(|i| (i % 255) as u8).collect();
    let mut c = cfg(256, 4, 50, 2);
    c.outer_parity = 1;
    let (_, _, vols) = make_set(&[("a.bin", data)], &c);
    let limits = IndexLimits::default();
    let mut given: Vec<Option<Vec<u8>>> = vols.iter().cloned().map(Some).collect();
    let rep = audit(&given, &limits).unwrap();
    assert_eq!(rep.volumes, 2);
    assert_eq!(rep.statuses, vec![VolumeStatus::Good, VolumeStatus::Good]);
    assert_eq!(rep.entry_counts.iter().sum::<usize>(), 9);
    assert_eq!(rep.entry_counts[0], open_index(&vols[0], &limits).unwrap().len());
    // three stripes, two inner shards each; none under the sentinel
    assert_eq!(rep.stripe_parity_counts.len(), 3);
    for s in 0..3u32 {
        assert_eq!(rep.stripe_parity_counts.get(&s), Some(&2));
        assert_eq!(rep.stripe_parity_verified.get(&s), Some(&2));
        // one outer shard each, under the stripe that it protects
        assert_eq!(rep.stripe_outer_counts.get(&s), Some(&1));
        assert_eq!(rep.stripe_outer_verified.get(&s), Some(&1));
    }
    assert_eq!(rep.stripe_parity_counts.get(&u32::MAX), None);
    assert_eq!(rep.stripe_outer_counts.get(&u32::MAX), None);
    assert_eq!(rep.stripe_outer_counts.len(), 3);
    assert_eq!(rep.stripe_parity_counts.get(&3), None);
    // a damaged shard is counted, and not as verified
    let first = open_index(&vols[0], &limits).unwrap()[0];
    given[0].as_mut().unwrap()[first.offset as usize] ^= 1;
    let rep = audit(&given, &limits).unwrap();
    let (counts, verified) = if first.stripe == u32::MAX {
        (&rep.stripe_outer_counts, &rep.stripe_outer_verified)
    } else {
        (&rep.stripe_parity_counts, &rep.stripe_parity_verified)
    };
    let stripe = first.outer_for_stripe.unwrap_or(first.stripe);
    let all = *counts.get(&stripe).unwrap();
    assert_eq!(verified.get(&stripe).copied().unwrap_or(0), all - 1);
    let none = audit(&vec![], &limits).unwrap();
    assert_eq!(none.volumes, 0);
    assert!(none.statuses.is_empty());
    assert!(none.stripe_parity_counts.is_empty());
    assert!(none.stripe_outer_counts.is_empty());
}

#[test]
fn parity_audit_goes_on_past_a_volume_that_cannot_be_read() {
    let data: Vec<u8> = (0..12 * 256usize).map(|i| (i % 255) as u8).collect();
    let mut c = cfg(256, 4, 50, 2);
    c.outer_parity = 1;
    let (_, _, vols) = make_set(&[("a.bin", data)], &c);
    let limits = IndexLimits::default();
    let alone = audit(&vec![Some(vols[0].clone())], &limits).unwrap();
    // the trailer of the second volume is destroyed
    let mut broken = vols[1].clone();
    let n = broken.len();
    let from = n.saturating_sub(8192);
    for b in &mut broken[from..] {
        *b = 0xA5;
    }
    let both = audit(&vec![Some(vols[0].clone()), Some(broken)], &limits).unwrap();
    assert_eq!(both.volumes, 2);
    assert_eq!(both.statuses[0], VolumeStatus::Good);
    assert!(both.statuses[1] != VolumeStatus::Good);
    assert_eq!(both.stripe_parity_counts, alone.stripe_parity_counts);
    assert_eq!(both.stripe_parity_verified, alone.stripe_parity_verified);
    assert_eq!(both.stripe_outer_counts, alone.stripe_outer_counts);
    assert_eq!(both.stripe_outer_verified, alone.stripe_outer_verified);
    // one flipped byte in the trailer's checksum
    let mut flipped = vols[1].clone();
    flipped[n - 1] ^= 1;
    let rep = audit(&vec![Some(flipped), Some(vols[0].clone()), None], &limits).unwrap();
    assert_eq!(rep.volumes, 3);
    assert_eq!(
        rep.statuses,
        vec![
            VolumeStatus::BadIndex(IndexError::CrcMismatch),
            VolumeStatus::Good,
            VolumeStatus::OpenError
        ]
    );
    assert_eq!(rep.stripe_parity_counts, alone.stripe_parity_counts);
    assert_eq!(rep.entry_counts, vec![0, alone.entry_counts[0], 0]);
    // a volume cut down to nothing
    let rep = audit(&vec![Some(vec![1, 2, 3])], &limits).unwrap();
    assert_eq!(rep.statuses, vec![VolumeStatus::BadHeader]);
    assert!(rep.stripe_parity_counts.is_empty());
}

#[test]
fn lost_part_of_a_split_file_is_restored() {
    // 8 parts of 5 chunks each, K = 64, 35 percent parity, outer parity 2
    let mut seed = 0x2545F4914F6CDD1Du64;
    let parts: Vec<(String, Vec<u8>)> = (0..8usize)
        .map(|p| {
            let mut data = vec![0u8; 5 * 64 * 1024];
            for chunk in data.chunks_mut(8) {
                seed ^= seed << 13;
                seed ^= seed >> 7;
                seed ^= seed << 17;
                chunk.copy_from_slice(&seed.to_le_bytes()[..chunk.len()]);
            }
            (format!("part-{:03}.bin", p), data)
        })
        .collect();
    let named: Vec<(&str, Vec<u8>)> = parts.iter().map(|(n, d)| (n.as_str(), d.clone())).collect();
    let mut c = cfg(64 * 1024, 64, 35, 3);
    c.outer_group = 128;
    c.outer_parity = 2;
    let sources: Vec<SourceFile> = named
        .iter()
        .map(|(n, d)| SourceFile { rel_path: n.to_string(), data: d.clone() })
        .collect();
    // volumes that take 5, 10 and 20 shards
    let out = Encoder::encode(&sources, &c, &vec![5, 10, 20], ".parx", "now").unwrap();
    assert_eq!(out.manifest.total_chunks, 40);
    let vols = Encoder::finish(&out.volumes, None).unwrap();
    let counts: Vec<usize> = out.volumes.iter().map(|w| w.entries.len()).collect();
    // 22 inner and 2 outer shards
    assert_eq!(counts.iter().sum::<usize>(), 24);
    assert_eq!(counts, vec![5, 10, 9]);
    let mut files: Vec<Option<Vec<u8>>> = named.iter().map(|(_, d)| Some(d.clone())).collect();
    files[2] = None;
    let rep = damage_audit(&out.manifest, &files).unwrap();
    assert_eq!((rep.total_bad, rep.worst, rep.m), (5, 5, 22));
    assert!(rep.repairable);
    let fixed = repair(&out.manifest, &files, &vols, &no_links(&out.manifest)).unwrap();
    assert_eq!(fixed.report.repaired_chunks, 5);
    assert_eq!(fixed.files[2].as_ref().unwrap(), &parts[2].1);
    assert!(is_ok(&verify(&out.manifest, &fixed.files, &no_links(&out.manifest)).unwrap()));
}

#[test]
fn a_digest_is_compared_as_lowercase_hex() {
    let mut d = [0u8; 32];
    d[0] = 0xAB;
    d[31] = 0x01;
    let text = format!("ab{}01", "00".repeat(30));
    assert!(digest_is(&d, &text));
    assert!(!digest_is(&d, &text.to_uppercase()));
    assert!(!digest_is(&d, &text[..62].to_string()));
    assert!(!digest_is(&d, &String::new()));
    let other = [0u8; 32];
    assert!(!digest_is(&other, &text));
}

#[test]
fn a_replacement_is_taken_only_where_its_digest_is_recorded() {
    let a: Vec<u8> = (0..100u32).map(|i| (i * 7 + 3) as u8).collect();
    let (mf, _, _) = make_set(&[("a.bin", a.clone())], &cfg(64, 2, 50, 1));
    // two chunks: 64 bytes and 36 bytes
    let mut second = a[64..].to_vec();
    second.resize(64, 0);
    let rec = vec![a[..64].to_vec(), second.clone()];
    assert_eq!(chunk_replacement(&rec, 0, &mf, 0, 0), Some(a[..64].to_vec()));
    assert_eq!(chunk_replacement(&rec, 1, &mf, 0, 1), Some(a[64..].to_vec()));
    // the wrong shard for the chunk
    assert_eq!(chunk_replacement(&rec, 1, &mf, 0, 0), None);
    // a shard that differs in one byte
    let mut off = rec.clone();
    off[0][10] ^= 1;
    assert_eq!(chunk_replacement(&off, 0, &mf, 0, 0), None);
    // only the chunk's own bytes of the shard are read
    let mut tail = rec.clone();
    tail[1][50] = 9;
    assert_eq!(chunk_replacement(&tail, 1, &mf, 0, 1), Some(a[64..].to_vec()));
    tail[1][35] ^= 1;
    assert_eq!(chunk_replacement(&tail, 1, &mf, 0, 1), None);
    // no such shard, file or chunk
    assert_eq!(chunk_replacement(&rec, 2, &mf, 0, 0), None);
    assert_eq!(chunk_replacement(&rec, 0, &mf, 1, 0), None);
    assert_eq!(chunk_replacement(&rec, 0, &mf, 0, 2), None);
    // a shard shorter than the chunk
    let short = vec![a[..10].to_vec()];
    assert_eq!(chunk_replacement(&short, 0, &mf, 0, 0), None);
}

#[test]
fn the_default_policy_refuses_a_link_on_a_path() {
    let (manifest, files, vols) =
        make_set(&[("a.bin", vec![1u8; 3000]), ("b.bin", vec![2u8; 3000])], &cfg(1024, 4, 50, 1));
    let clear = LinkFacts { link_on_path: false, contained: true };
    let linked = LinkFacts { link_on_path: true, contained: true };
    let found = vec![clear, linked];
    assert_eq!(
        verify(&manifest, &files, &found).unwrap_err(),
        VerifyError::UnsafePath(PathError::Symlink)
    );
    assert_eq!(
        repair(&manifest, &files, &vols, &found).unwrap_err(),
        RepairError::UnsafePath(PathError::Symlink)
    );
    let follow = PathPolicy { follow_symlinks: true };
    assert!(is_ok(&verify_with_manifest(&manifest, &files, follow, &found).unwrap()));
    assert!(is_ok(&verify_with_policy(&manifest, &files, follow, &found).unwrap()));
    assert!(repair_with_policy(&manifest, &files, &vols, follow, &found).is_ok());
    let outside = vec![clear, LinkFacts { link_on_path: true, contained: false }];
    assert_eq!(
        verify_with_manifest(&manifest, &files, follow, &outside).unwrap_err(),
        VerifyError::UnsafePath(PathError::EscapesRoot)
    );
    // one set of facts per file
    assert_eq!(verify(&manifest, &files, &vec![clear]).unwrap_err(), VerifyError::FileCount);
    assert_eq!(
        repair(&manifest, &files, &vols, &vec![clear]).unwrap_err(),
        RepairError::FileCount
    );
    // the contents alone say nothing of links
    assert!(is_ok(&verify_contents(&manifest, &files).unwrap()));
}

#[test]
fn the_text_of_a_path_is_judged_before_its_links() {
    let (mut manifest, files, vols) =
        make_set(&[("a.bin", vec![1u8; 3000]), ("b.bin", vec![2u8; 3000])], &cfg(1024, 4, 50, 1));
    let clear = LinkFacts { link_on_path: false, contained: true };
    let linked = LinkFacts { link_on_path: true, contained: false };
    manifest.files[0].rel_path = "../escape.txt".to_string();
    for follow in [false, true] {
        let policy = PathPolicy { follow_symlinks: follow };
        // a link is reported on the very path whose text is unsafe
        assert_eq!(
            verify_with_manifest(&manifest, &files, policy, &vec![linked, clear]).unwrap_err(),
            VerifyError::UnsafePath(PathError::ParentTraversal)
        );
        assert_eq!(
            repair_with_policy(&manifest, &files, &vols, policy, &vec![linked, clear])
                .unwrap_err(),
            RepairError::UnsafePath(PathError::ParentTraversal)
        );
    }
    // file by file: a link on the first file comes before the text of the second
    manifest.files[0].rel_path = "a.bin".to_string();
    manifest.files[1].rel_path = "/abs".to_string();
    assert_eq!(
        verify(&manifest, &files, &vec![linked, clear]).unwrap_err(),
        VerifyError::UnsafePath(PathError::Symlink)
    );
    assert_eq!(
        verify(&manifest, &files, &vec![clear, linked]).unwrap_err(),
        VerifyError::UnsafePath(PathError::Absolute)
    );
}
