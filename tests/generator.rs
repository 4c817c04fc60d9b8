use file_fingerprint::{RawFingerprinter, StableRng, RNG_SEED, SEGMENT_COUNT};
use rand::{Rng, SeedableRng};
use rand_chacha::ChaCha8Rng;

#[test]
fn stable_generator_matches_sequential_draws() {
    let mut sequential = ChaCha8Rng::seed_from_u64(RNG_SEED);
    let mut stable = StableRng::new(RNG_SEED);
    for round in 0..300 {
        if round % 3 == 0 {
            let expected: u8 = sequential.gen();
            assert_eq!(stable.gen_byte(), expected);
        } else {
            let expected = sequential.gen_range(0..128u64) as usize;
            assert_eq!(stable.gen_index(128), expected);
        }
    }
    assert_eq!(stable.word, sequential.get_word_pos());
    assert_eq!(stable.seed, RNG_SEED);
}

#[test]
fn stable_generator_is_reproducible_and_in_range() {
    let mut a = StableRng::new(7);
    let mut b = StableRng::new(7);
    let draws_a: Vec<usize> = (0..50).map(|_| a.gen_index(10)).collect();
    let draws_b: Vec<usize> = (0..50).map(|_| b.gen_index(10)).collect();
    assert_eq!(draws_a, draws_b);
    assert!(draws_a.iter().all(|&d| d < 10));
    assert!(draws_a.iter().any(|&d| d != draws_a[0]));
    assert_eq!(a.gen_index(1), 0);
    assert!(a.word > 0);
}

#[test]
fn segment_table_follows_the_sequential_generator() {
    for &n in &[0usize, 5, 127, 300, 1000, 100_003] {
        let mut rng = ChaCha8Rng::seed_from_u64(RNG_SEED);
        let base = n / SEGMENT_COUNT;
        let mut left = n % SEGMENT_COUNT;
        let mut sizes = vec![base; SEGMENT_COUNT];
        while left > 0 {
            let i = rng.gen_range(0..SEGMENT_COUNT);
            if sizes[i] == base {
                sizes[i] += 1;
                left -= 1;
            }
        }
        let drawn: Vec<Option<u8>> = sizes
            .iter()
            .map(|&s| if s == 0 { Some(rng.gen::<u8>()) } else { None })
            .collect();

        let fp = RawFingerprinter::new("t".to_string(), n);
        let got: Vec<usize> = fp.segments().iter().map(|s| s.size()).collect();
        assert_eq!(got, sizes);
        for (seg, expected) in fp.segments().iter().zip(drawn) {
            if let Some(v) = expected {
                assert_eq!(seg.value(&[]), Ok(v));
            }
        }
    }
}
