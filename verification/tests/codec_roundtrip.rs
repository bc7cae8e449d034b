use parx_core::rs_codec::{CodecError, RsCodec};
use rand::{rngs::StdRng, Rng, SeedableRng};

#[test]
fn rs_reconstruct_exact_missing_under_m() {
    let mut rng = StdRng::seed_from_u64(42);
    let k = 8usize;
    let m = 4usize;
    let chunk = 32 * 1024;
    let total = k + m;

    // Make shards
    let mut shards: Vec<Vec<u8>> =
        (0..total).map(|_| (0..chunk).map(|_| rng.gen()).collect()).collect();

    // Encode parity over zeroed parity slots
    for i in k..total {
        shards[i].fill(0);
    }
    RsCodec::new(k, m).unwrap().encode(&mut shards).unwrap();

    // Knock out at most m data shards
    let missing = vec![1usize, 3usize, 7usize];
    let mut opts: Vec<Option<Vec<u8>>> = shards.iter().cloned().map(Some).collect();
    for &i in &missing {
        opts[i] = None;
    }
    RsCodec::new(k, m).unwrap().reconstruct(&mut opts).unwrap();

    // Compare restored vs encoded
    for &i in &missing {
        assert_eq!(opts[i].as_ref().unwrap(), &shards[i]);
    }
}

#[test]
fn rs_new_rejects_bad_params() {
    assert_eq!(RsCodec::new(0, 4).unwrap_err(), CodecError::BadParams);
    assert_eq!(RsCodec::new(4, 0).unwrap_err(), CodecError::BadParams);
    assert_eq!(RsCodec::new(200, 57).unwrap_err(), CodecError::BadParams);
    assert!(RsCodec::new(200, 56).is_ok());
}
