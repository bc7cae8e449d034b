use parx_core::capacity::{default_capacities, parse_counts, parse_sizes, CapacityError};
use parx_core::encode::{Encoder, EncoderConfig, SourceFile};

fn cfg(chunk_size: usize, stripe_k: usize, parity_pct: u32, outer_parity: usize) -> EncoderConfig {
    EncoderConfig {
        chunk_size,
        stripe_k,
        parity_pct,
        volumes: 1,
        outer_group: 0,
        outer_parity,
        interleave_files: false,
    }
}

fn file(name: &str, len: usize) -> SourceFile {
    SourceFile { rel_path: name.to_string(), data: vec![7u8; len] }
}

#[test]
fn sizes_are_counted_in_blocks() {
    assert_eq!(parse_sizes("1M,1M,1M", 32768), Ok(vec![32, 32, 32]));
    assert_eq!(parse_sizes("2M,2M,2M", 65536), Ok(vec![32, 32, 32]));
    assert_eq!(parse_sizes("5M,10M,20M", 1 << 20), Ok(vec![5, 10, 20]));
    assert_eq!(parse_sizes("1G", 1), Ok(vec![1 << 30]));
    assert_eq!(parse_sizes("3K", 1024), Ok(vec![3]));
    assert_eq!(parse_sizes("4096", 4096), Ok(vec![1]));
}

#[test]
fn sizes_are_rounded_up_and_never_zero() {
    assert_eq!(parse_sizes("4097", 4096), Ok(vec![2]));
    assert_eq!(parse_sizes("1", 4096), Ok(vec![1]));
    assert_eq!(parse_sizes("0", 4096), Ok(vec![1]));
    assert_eq!(parse_sizes("0K", 4096), Ok(vec![1]));
    assert_eq!(parse_sizes("1K", 1000), Ok(vec![2]));
    assert_eq!(parse_sizes("8191,8192,8193", 4096), Ok(vec![2, 2, 3]));
}

#[test]
fn units_are_read_in_either_case_and_blanks_are_passed_over() {
    assert_eq!(parse_sizes("1k,1m,1g", 1024), Ok(vec![1, 1024, 1 << 20]));
    assert_eq!(parse_sizes(" 2K ,\t3K\n", 1024), Ok(vec![2, 3]));
    assert_eq!(parse_sizes("+2K", 1024), Ok(vec![2]));
    assert_eq!(parse_sizes("007", 1), Ok(vec![7]));
}

#[test]
fn what_is_no_size_is_refused_with_its_place() {
    assert_eq!(parse_sizes("", 4096), Err(CapacityError::BadPart(0)));
    assert_eq!(parse_sizes("   ", 4096), Err(CapacityError::BadPart(0)));
    assert_eq!(parse_sizes("1M,,2M", 4096), Err(CapacityError::BadPart(1)));
    assert_eq!(parse_sizes("1M,2M,", 4096), Err(CapacityError::BadPart(2)));
    assert_eq!(parse_sizes(",1M", 4096), Err(CapacityError::BadPart(0)));
    assert_eq!(parse_sizes("1M,2X", 4096), Err(CapacityError::BadPart(1)));
    assert_eq!(parse_sizes("1 K", 4096), Err(CapacityError::BadPart(0)));
    assert_eq!(parse_sizes("K", 4096), Err(CapacityError::BadPart(0)));
    assert_eq!(parse_sizes("+", 4096), Err(CapacityError::BadPart(0)));
    assert_eq!(parse_sizes("+K", 4096), Err(CapacityError::BadPart(0)));
    assert_eq!(parse_sizes("-1", 4096), Err(CapacityError::BadPart(0)));
    assert_eq!(parse_sizes("1.5M", 4096), Err(CapacityError::BadPart(0)));
    assert_eq!(parse_sizes("1KK", 4096), Err(CapacityError::BadPart(0)));
    assert_eq!(parse_sizes("1M,abc,x", 4096), Err(CapacityError::BadPart(1)));
    assert_eq!(parse_sizes("1M", 0), Err(CapacityError::ZeroBlock));
    assert_eq!(parse_sizes("x", 0), Err(CapacityError::ZeroBlock));
}

#[test]
fn sizes_beyond_the_machine_are_refused() {
    let most = usize::MAX.to_string();
    assert_eq!(parse_sizes(&most, 1), Ok(vec![usize::MAX]));
    assert_eq!(parse_sizes(&most, 2), Ok(vec![usize::MAX / 2 + 1]));
    assert_eq!(parse_sizes(&format!("{}0", most), 1), Err(CapacityError::BadPart(0)));
    assert_eq!(parse_sizes(&format!("1,{}K", most), 1), Err(CapacityError::BadPart(1)));
    let edge = usize::MAX / 1024;
    assert_eq!(parse_sizes(&format!("{}K", edge), 1024), Ok(vec![edge]));
    assert_eq!(parse_sizes(&format!("{}K", edge + 1), 1024), Err(CapacityError::BadPart(0)));
    assert_eq!(
        parse_sizes("340282366920938463463374607431768211456", 1),
        Err(CapacityError::BadPart(0))
    );
}

#[test]
fn counts_are_read_as_they_stand() {
    assert_eq!(parse_counts("100,100,50"), Ok(vec![100, 100, 50]));
    assert_eq!(parse_counts(" 3 , +4 "), Ok(vec![3, 4]));
    assert_eq!(parse_counts("0,1"), Ok(vec![1, 1]));
    assert_eq!(parse_counts(&usize::MAX.to_string()), Ok(vec![usize::MAX]));
    assert_eq!(parse_counts("1K"), Err(CapacityError::BadPart(0)));
    assert_eq!(parse_counts("1,2,x,y"), Err(CapacityError::BadPart(2)));
    assert_eq!(parse_counts(""), Err(CapacityError::BadPart(0)));
    assert_eq!(parse_counts("1,"), Err(CapacityError::BadPart(1)));
    assert_eq!(parse_counts(&format!("{}1", usize::MAX)), Err(CapacityError::BadPart(0)));
}

#[test]
fn one_volume_takes_every_shard_where_no_capacity_is_given() {
    // 3 files of 5, 1 and 0 chunks: 6 chunks, 2 stripes of 4, M = 2
    let files = vec![file("a", 5 * 64), file("b", 1), file("c", 0)];
    assert_eq!(default_capacities(&files, &cfg(64, 4, 50, 0)), vec![4]);
    // with outer parity, M + O shards per stripe
    assert_eq!(default_capacities(&files, &cfg(64, 4, 50, 3)), vec![10]);
    // no parity, no shards; outer parity without inner parity is none
    assert_eq!(default_capacities(&files, &cfg(64, 4, 0, 3)), vec![0]);
    // no files, no stripes
    assert_eq!(default_capacities(&vec![], &cfg(64, 4, 50, 0)), vec![0]);
    // parameters out of range
    assert_eq!(default_capacities(&files, &cfg(0, 4, 50, 0)), vec![0]);
    assert_eq!(default_capacities(&files, &cfg(64, 0, 50, 0)), vec![0]);
}

#[test]
fn the_default_capacity_is_what_the_encoder_fills() {
    let files = vec![file("a", 1000), file("b", 300)];
    let cfg = cfg(64, 4, 50, 1);
    let caps = default_capacities(&files, &cfg);
    let out = Encoder::encode(&files, &cfg, &caps, ".parx", "t").unwrap();
    assert_eq!(out.volumes.len(), 1);
    assert_eq!(out.volumes[0].entries.len(), caps[0]);
}
