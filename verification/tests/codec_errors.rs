use parx_core::compute::{ComputeBackend, CpuBackend};
use parx_core::exit_code::{
    ending_of_encode, ending_of_index, ending_of_repair, ending_of_verify, exit_code, Ending,
};
use parx_core::encode::{ConfigError, EncodeError};
use parx_core::index::IndexError;
use parx_core::localize::NoopLoc;
use parx_core::order::assign_order;
use parx_core::path_safety::PathError;
use parx_core::placement::Placer;
use parx_core::progress::Progress;
use parx_core::repair::RepairError;
use parx_core::rs_codec::{CodecError, RsCodec};
use parx_core::verify::VerifyError;

fn shards(k: usize, m: usize, len: usize) -> Vec<Vec<u8>> {
    (0..k + m)
        .map(|i| (0..len).map(|j| if i < k { (i * 31 + j * 7) as u8 } else { 0 }).collect())
        .collect()
}

#[test]
fn encode_matches_the_codec_and_keeps_the_data() {
    let rs = RsCodec::new(4, 2).unwrap();
    assert_eq!((rs.k, rs.m), (4, 2));
    let mut ours = shards(4, 2, 64);
    let data: Vec<Vec<u8>> = ours[..4].to_vec();
    rs.encode(&mut ours).unwrap();
    assert_eq!(&ours[..4], &data[..]);
    let mut theirs = shards(4, 2, 64);
    reed_solomon_erasure::galois_8::ReedSolomon::new(4, 2).unwrap().encode(&mut theirs).unwrap();
    assert_eq!(ours, theirs);
    assert_ne!(ours[4], vec![0u8; 64]);
    // whatever the parity slots held is overwritten
    let mut dirty = shards(4, 2, 64);
    dirty[4] = vec![0xEE; 64];
    rs.encode(&mut dirty).unwrap();
    assert_eq!(dirty, ours);
}

#[test]
fn encode_refuses_bad_shapes() {
    let rs = RsCodec::new(4, 2).unwrap();
    let mut few = shards(4, 1, 8);
    assert_eq!(rs.encode(&mut few).unwrap_err(), CodecError::ShardCount);
    let mut many = shards(4, 3, 8);
    assert_eq!(rs.encode(&mut many).unwrap_err(), CodecError::ShardCount);
    let mut empty = shards(4, 2, 0);
    assert_eq!(rs.encode(&mut empty).unwrap_err(), CodecError::BadShardSize);
    let mut uneven = shards(4, 2, 8);
    uneven[3].push(1);
    let before = uneven.clone();
    assert_eq!(rs.encode(&mut uneven).unwrap_err(), CodecError::BadShardSize);
    assert_eq!(uneven, before);
    let bad = RsCodec { k: 0, m: 2 };
    assert_eq!(bad.encode(&mut shards(0, 2, 8)).unwrap_err(), CodecError::BadParams);
}

#[test]
fn reconstruct_needs_k_shards() {
    let rs = RsCodec::new(4, 2).unwrap();
    let mut full = shards(4, 2, 32);
    rs.encode(&mut full).unwrap();
    let opts = |missing: &[usize]| -> Vec<Option<Vec<u8>>> {
        full.iter()
            .enumerate()
            .map(|(i, s)| if missing.contains(&i) { None } else { Some(s.clone()) })
            .collect()
    };
    // any two shards may be missing, data or parity
    for a in 0..6 {
        for b in a..6 {
            let mut o = opts(&[a, b]);
            rs.reconstruct(&mut o).unwrap();
            let got: Vec<Vec<u8>> = o.into_iter().map(|x| x.unwrap()).collect();
            assert_eq!(got, full);
        }
    }
    let mut o = opts(&[0, 1, 2]);
    let before = o.clone();
    assert_eq!(rs.reconstruct(&mut o).unwrap_err(), CodecError::InsufficientShards);
    assert_eq!(o, before);
    let mut o = opts(&[]);
    o.pop();
    assert_eq!(rs.reconstruct(&mut o).unwrap_err(), CodecError::ShardCount);
    let mut o = opts(&[0]);
    o[1] = Some(vec![1, 2, 3]);
    assert_eq!(rs.reconstruct(&mut o).unwrap_err(), CodecError::BadShardSize);
    let mut o = opts(&[0]);
    o[5] = Some(vec![]);
    assert_eq!(rs.reconstruct(&mut o).unwrap_err(), CodecError::BadShardSize);
    let mut none: Vec<Option<Vec<u8>>> = vec![None; 6];
    assert_eq!(rs.reconstruct(&mut none).unwrap_err(), CodecError::InsufficientShards);
    let bad = RsCodec { k: 200, m: 100 };
    assert_eq!(bad.reconstruct(&mut opts(&[])).unwrap_err(), CodecError::BadParams);
}

#[test]
fn cpu_backend_encodes_stripes() {
    let be = CpuBackend::new(3, 2).unwrap();
    let all = shards(3, 2, 16);
    let data: Vec<Vec<u8>> = all[..3].to_vec();
    let mut parity = vec![vec![0u8; 16]; 2];
    be.encode_stripe(&data, &mut parity).unwrap();
    let mut want = all.clone();
    reed_solomon_erasure::galois_8::ReedSolomon::new(3, 2).unwrap().encode(&mut want).unwrap();
    assert_eq!(parity, want[3..].to_vec());
    // a batch is stripe after stripe
    let other: Vec<Vec<u8>> = data.iter().map(|s| s.iter().map(|b| b ^ 0x55).collect()).collect();
    let stripes = vec![data.clone(), other.clone()];
    let mut outs = vec![vec![vec![0u8; 16]; 2], vec![vec![0u8; 16]; 2]];
    be.encode_batch(&stripes, &mut outs).unwrap();
    assert_eq!(outs[0], parity);
    let mut p2 = vec![vec![0u8; 16]; 2];
    be.encode_stripe(&other, &mut p2).unwrap();
    assert_eq!(outs[1], p2);
    assert_ne!(outs[0], outs[1]);
    // errors leave the output as it was
    let mut short = vec![vec![7u8; 16]; 1];
    assert_eq!(be.encode_stripe(&data, &mut short).unwrap_err(), CodecError::ShardCount);
    assert_eq!(short, vec![vec![7u8; 16]; 1]);
    let mut uneven = vec![vec![7u8; 16], vec![7u8; 15]];
    assert_eq!(be.encode_stripe(&data, &mut uneven).unwrap_err(), CodecError::BadShardSize);
    let bad = CpuBackend::new(0, 0).unwrap();
    assert_eq!(bad.encode_stripe(&vec![], &mut vec![]).unwrap_err(), CodecError::BadParams);
}

#[test]
fn global_order_in_both_modes() {
    let counts = vec![3usize, 0, 1, 2];
    assert_eq!(
        assign_order(&counts, false),
        vec![(0, 0), (0, 1), (0, 2), (2, 0), (3, 0), (3, 1)]
    );
    assert_eq!(
        assign_order(&counts, true),
        vec![(0, 0), (2, 0), (3, 0), (0, 1), (3, 1), (0, 2)]
    );
    assert!(assign_order(&vec![], true).is_empty());
    assert!(assign_order(&vec![0, 0], false).is_empty());
}

#[test]
fn placer_goes_round_and_skips_full_volumes() {
    let mut p = Placer::new(vec![usize::MAX; 3]);
    let got: Vec<usize> = (0..7).map(|_| p.place()).collect();
    assert_eq!(got, vec![0, 1, 2, 0, 1, 2, 0]);
    let mut p = Placer::new(vec![2, 0, 1]);
    let got: Vec<usize> = (0..6).map(|_| p.place()).collect();
    // volume 1 never has room; when nothing is left, volume 0 takes the rest
    assert_eq!(got, vec![0, 2, 0, 0, 0, 0]);
    let mut p = Placer::new(vec![0]);
    assert_eq!(p.place(), 0);
}

#[test]
fn progress_counts_and_reports() {
    let mut p = Progress::new(true);
    assert_eq!(p.stage, "");
    assert!(!p.running);
    p.set_stage("Hashing");
    p.set_blocks_total(10);
    p.inc_block();
    p.inc_block();
    p.reset_bytes(200);
    p.add_bytes(50);
    p.add_bytes(1);
    assert_eq!((p.blocks_done, p.blocks_total, p.bytes_done, p.bytes_total), (2, 10, 51, 200));
    assert_eq!(p.bytes_percent(), 25);
    assert!(p.start());
    assert!(p.running);
    assert_eq!(p.report_line(7), "[   7s] Hashing | stripes 2/10 | bytes 25%");
    assert_eq!(p.report_line(12345), "[12345s] Hashing | stripes 2/10 | bytes 25%");
    p.stop();
    assert!(!p.running);
    p.reset_bytes(0);
    assert_eq!(p.bytes_percent(), 0);
    p.bytes_done = usize::MAX;
    p.add_bytes(3);
    assert_eq!(p.bytes_done, 2);
    p.blocks_done = usize::MAX;
    p.inc_block();
    assert_eq!(p.blocks_done, 0);
    // a disabled progress takes no stage and does not run
    let mut q = Progress::new(false);
    q.set_stage("Encoding");
    assert_eq!(q.stage, "");
    assert!(!q.start());
    assert!(!q.running);
    q.inc_block();
    assert_eq!(q.blocks_done, 1);
}

#[test]
fn noop_localizer_answers_with_the_code() {
    let loc = NoopLoc;
    assert_eq!(loc.msg("verify-ok", &[]), "verify-ok");
    assert_eq!(loc.msg("repair-done", &[("count", "3")]), "repair-done");
    assert_eq!(loc.msg("", &[]), "");
}

#[test]
fn exit_codes_follow_sysexits() {
    assert_eq!(exit_code(Ending::Success), 0);
    assert_eq!(exit_code(Ending::Usage), 64);
    assert_eq!(exit_code(Ending::DataError), 65);
    assert_eq!(exit_code(Ending::NoInput), 66);
    assert_eq!(exit_code(Ending::Software), 70);
    assert_eq!(exit_code(Ending::CannotCreate), 73);
    assert_eq!(exit_code(Ending::Io), 74);
    assert_eq!(exit_code(Ending::Permission), 77);
    assert_eq!(ending_of_encode(EncodeError::BadConfig(ConfigError::StripeK)), Ending::Usage);
    assert_eq!(ending_of_encode(EncodeError::TooLarge), Ending::DataError);
    assert_eq!(ending_of_encode(EncodeError::UnsafePath(PathError::Absolute)), Ending::DataError);
    assert_eq!(ending_of_verify(VerifyError::BadManifest), Ending::DataError);
    assert_eq!(ending_of_repair(RepairError::BadConfig), Ending::Usage);
    assert_eq!(ending_of_repair(RepairError::FileCount), Ending::DataError);
    assert_eq!(ending_of_index(IndexError::Compression, true), Ending::Software);
    assert_eq!(ending_of_index(IndexError::Compression, false), Ending::DataError);
    assert_eq!(ending_of_index(IndexError::CrcMismatch, true), Ending::DataError);
}

#[test]
fn a_batch_stops_at_the_first_stripe_that_is_refused() {
    let be = CpuBackend::new(3, 2).unwrap();
    let data: Vec<Vec<u8>> = shards(3, 2, 16)[..3].to_vec();
    let mut one = vec![vec![0u8; 16]; 2];
    be.encode_stripe(&data, &mut one).unwrap();
    // more outputs than stripes: the surplus is left as it was
    let stripes = vec![data.clone(), data.clone()];
    let mut outs = vec![vec![vec![0u8; 16]; 2], vec![vec![0u8; 16]; 2], vec![vec![9u8; 3]; 5]];
    be.encode_batch(&stripes, &mut outs).unwrap();
    assert_eq!(outs[0], one);
    assert_eq!(outs[1], one);
    assert_eq!(outs[2], vec![vec![9u8; 3]; 5]);
    // the second of three stripes is refused: the first has its parity, the
    // others are as they were, and the error is that of the second
    let short: Vec<Vec<u8>> = data[..2].to_vec();
    let stripes = vec![data.clone(), short, vec![]];
    let blank = vec![vec![1u8; 16]; 2];
    let mut outs = vec![blank.clone(), blank.clone(), blank.clone()];
    assert_eq!(be.encode_batch(&stripes, &mut outs).unwrap_err(), CodecError::ShardCount);
    assert_eq!(outs[0], one);
    assert_eq!(outs[1], blank);
    assert_eq!(outs[2], blank);
    // the error of the first refused stripe, not of a later one
    let uneven = vec![vec![0u8; 16], vec![0u8; 15], vec![0u8; 16]];
    let stripes = vec![uneven, vec![]];
    let mut outs = vec![blank.clone(), blank.clone()];
    assert_eq!(be.encode_batch(&stripes, &mut outs).unwrap_err(), CodecError::BadShardSize);
    assert_eq!(outs, vec![blank.clone(), blank.clone()]);
    // an empty batch succeeds and touches nothing
    let mut outs = vec![blank.clone()];
    be.encode_batch(&vec![], &mut outs).unwrap();
    assert_eq!(outs, vec![blank]);
}
