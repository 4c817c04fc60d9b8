use file_fingerprint::{
    bits_from_summaries, compare_bits, mean_of, BitVector, Fingerprint, FingerprintError, Fingerprinter,
    RawFingerprinter, Similarity, Type, SEGMENT_COUNT,
};

fn ratio(s: Similarity) -> f64 {
    s.matching as f64 / s.total as f64
}

fn structured_text(lines: usize) -> Vec<u8> {
    let mut out = Vec::new();
    for i in 0..lines {
        let line = format!("line {:05}: the quick brown fox jumps over the lazy dog\n", i);
        out.extend_from_slice(line.as_bytes());
    }
    out
}

fn noise(len: usize, mut state: u64) -> Vec<u8> {
    let mut out = Vec::with_capacity(len);
    for _ in 0..len {
        state ^= state << 13;
        state ^= state >> 7;
        state ^= state << 17;
        out.push((state >> 24) as u8);
    }
    out
}

fn all_bits(f: &Fingerprint) -> Vec<bool> {
    let b = f.bits();
    (0..b.len()).map(|i| b.get(i)).collect()
}

#[test]
fn test_empty() {
    assert_eq!(
        Fingerprint::finger("samples/empty".to_string(), &[]).to_string(),
        "51ad9acc76659b1a4d4da56055b1b532"
    );
}

#[test]
fn empty_file_fingerprint_is_reproducible() {
    let first = Fingerprint::finger("a".to_string(), &[]);
    let second = Fingerprint::finger("b".to_string(), &[]);
    assert_eq!(first.to_string(), second.to_string());
    assert_eq!(first.bytes(), second.bytes());

    let fp = RawFingerprinter::new("a".to_string(), 0);
    assert!(fp.finger(&[]).is_ok());
    for seg in fp.segments() {
        assert_eq!(seg.size(), 0);
        assert_eq!(seg.pos(), 0);
        assert!(seg.value(&[]).is_ok());
    }
}

#[test]
fn repeated_fingerprints_are_identical() {
    let content = structured_text(300);
    let first = Fingerprint::finger("f".to_string(), &content);
    let second = Fingerprint::finger("f".to_string(), &content);
    assert_eq!(first.to_string(), second.to_string());
    assert_eq!(first.bytes(), second.bytes());
}

#[test]
fn increasing_bytes_set_every_adjacent_bit() {
    let content: Vec<u8> = (0u8..128).collect();
    let f = Fingerprint::finger("increasing".to_string(), &content);
    let bits = all_bits(&f);
    assert_eq!(bits.len(), SEGMENT_COUNT);
    for i in 0..127 {
        assert!(bits[i], "bit {} should be set", i);
    }
    assert!(!bits[127]);
    assert_eq!(f.bytes(), &[0xff, 0xff, 0xff, 0xff, 0xff, 0xff, 0xff, 0xff, 0xff, 0xff, 0xff, 0xff, 0xff, 0xff, 0xff, 0x7f]);
    assert_eq!(f.to_string(), "ffffffffffffffffffffffffffffff7f");
    assert_eq!(f.kind(), Type::Raw);
    assert_eq!(f.path(), "increasing");
}

#[test]
fn decreasing_bytes_set_only_the_wraparound_bit() {
    let content: Vec<u8> = (0u8..128).rev().collect();
    let f = Fingerprint::finger("decreasing".to_string(), &content);
    let bits = all_bits(&f);
    for i in 0..127 {
        assert!(!bits[i]);
    }
    assert!(bits[127]);
    assert_eq!(f.to_string(), "00000000000000000000000000000080");
}

#[test]
fn segment_table_partitions_the_file() {
    for &n in &[0usize, 1, 5, 127, 128, 129, 255, 1000, 12345, 1 << 20] {
        let fp = RawFingerprinter::new("t".to_string(), n);
        assert_eq!(fp.file_size(), n);
        assert_eq!(fp.path(), "t");
        let segs = fp.segments();
        assert_eq!(segs.len(), SEGMENT_COUNT);
        let base = n / SEGMENT_COUNT;
        let mut pos = 0;
        let mut bumped = 0;
        for (i, seg) in segs.iter().enumerate() {
            assert_eq!(seg.index(), i);
            assert_eq!(seg.pos(), pos);
            assert!(seg.size() == base || seg.size() == base + 1);
            if seg.size() == base + 1 {
                bumped += 1;
            }
            pos += seg.size();
        }
        assert_eq!(pos, n);
        assert_eq!(bumped, n % SEGMENT_COUNT);
    }
}

#[test]
fn small_file_gets_one_byte_segments() {
    let fp = RawFingerprinter::new("small".to_string(), 5);
    let ones = fp.segments().iter().filter(|s| s.size() == 1).count();
    let zeros = fp.segments().iter().filter(|s| s.size() == 0).count();
    assert_eq!(ones, 5);
    assert_eq!(zeros, 123);
}

#[test]
fn segment_value_is_truncated_mean() {
    let content: Vec<u8> = (0..256).map(|i| if i % 2 == 0 { 10 } else { 13 }).collect();
    let fp = RawFingerprinter::new("m".to_string(), content.len());
    for seg in fp.segments() {
        assert_eq!(seg.size(), 2);
        assert_eq!(seg.value(&content), Ok(11));
    }
    assert_eq!(mean_of(&[1, 2, 4], 0, 3), 2);
    assert_eq!(mean_of(&[9, 255, 255, 255, 0], 1, 3), 255);
    assert_eq!(mean_of(&[9, 7, 0], 1, 2), 3);
}

#[test]
fn short_content_is_a_short_read() {
    let fp = RawFingerprinter::new("s".to_string(), 1000);
    assert_eq!(fp.finger(&[0u8; 999]).err(), Some(FingerprintError::ShortRead));
    assert!(fp.finger(&[0u8; 1000]).is_ok());
    assert!(fp.finger(&[0u8; 1001]).is_ok());
    assert!(matches!(
        Fingerprint::from_raw(&fp, &[1u8; 10]),
        Err(FingerprintError::ShortRead)
    ));
    let last = &fp.segments()[SEGMENT_COUNT - 1];
    assert_eq!(last.value(&[0u8; 10]), Err(FingerprintError::ShortRead));
}

#[test]
fn extra_content_past_the_file_size_is_ignored() {
    let content = structured_text(50);
    let fp = RawFingerprinter::new("x".to_string(), content.len());
    let exact = Fingerprint::from_raw(&fp, &content).unwrap();
    let mut longer = content.clone();
    longer.extend_from_slice(&[0xaa; 64]);
    let extended = Fingerprint::from_raw(&fp, &longer).unwrap();
    assert_eq!(exact.to_string(), extended.to_string());
    assert_eq!(exact.path(), "x");
}

#[test]
fn summaries_become_monotonic_bits() {
    let mut summaries = vec![5u8; SEGMENT_COUNT];
    summaries[3] = 2;
    summaries[127] = 6;
    let bits = bits_from_summaries(&summaries);
    assert_eq!(bits.len(), SEGMENT_COUNT);
    for i in 0..127 {
        let expected = summaries[i + 1] >= summaries[i];
        assert_eq!(bits.get(i), expected, "bit {}", i);
    }
    assert!(!bits.get(2));
    assert!(bits.get(3));
    assert!(!bits.get(127));
}

#[test]
fn comparing_a_fingerprint_with_itself_gives_one() {
    let f = Fingerprint::finger("s".to_string(), &structured_text(100));
    let s = f.compare(&f).unwrap();
    assert_eq!(s, Similarity { matching: 128, total: 128 });
    assert_eq!(ratio(s), 1.0);
}

#[test]
fn comparison_is_symmetric_and_in_range() {
    let a = Fingerprint::finger("a".to_string(), &structured_text(120));
    let b = Fingerprint::finger("b".to_string(), &noise(5000, 7));
    let ab = a.compare(&b).unwrap();
    let ba = b.compare(&a).unwrap();
    assert_eq!(ab, ba);
    assert_eq!(ab.total, 128);
    assert!(ab.matching <= ab.total);
    let r = ratio(ab);
    assert!((0.0..=1.0).contains(&r));
}

#[test]
fn near_duplicates_score_high_and_unrelated_files_lower() {
    let source_text = structured_text(400);
    let mut edited = source_text.clone();
    for &at in &[17usize, 4000, 9000, 15000, 21000] {
        edited[at] = edited[at].wrapping_add(1);
    }
    let a = Fingerprint::finger("a".to_string(), &source_text);
    let b = Fingerprint::finger("b".to_string(), &edited);
    let near = ratio(a.compare(&b).unwrap());
    assert!(near > 0.8, "near-duplicate similarity {}", near);

    let c = Fingerprint::finger("c".to_string(), &noise(source_text.len(), 99));
    let far = ratio(a.compare(&c).unwrap());
    assert!(far < near, "unrelated similarity {} not below {}", far, near);
    assert!(far < 0.8, "unrelated similarity {}", far);
}

#[test]
fn comparison_covers_the_shorter_vector() {
    let mut long = BitVector::zeroed(4);
    long.set(0, true);
    long.set(20, true);
    let mut short = BitVector::zeroed(2);
    short.set(0, true);
    short.set(1, true);
    let s = compare_bits(&long, &short).unwrap();
    assert_eq!(s, Similarity { matching: 15, total: 16 });
    assert_eq!(compare_bits(&short, &long).unwrap(), s);
}

#[test]
fn comparing_an_empty_vector_is_an_error() {
    let empty = BitVector::zeroed(0);
    let some = BitVector::zeroed(1);
    assert_eq!(
        compare_bits(&empty, &some),
        Err(FingerprintError::InvalidFingerprintLength)
    );
    assert_eq!(
        compare_bits(&some, &empty),
        Err(FingerprintError::InvalidFingerprintLength)
    );
    assert!(!FingerprintError::InvalidFingerprintLength.message().is_empty());
    assert!(!FingerprintError::ShortRead.message().is_empty());
}

#[test]
fn file_of_one_byte_per_segment_fingerprints_its_bytes() {
    let content = noise(SEGMENT_COUNT, 12345);
    let f = Fingerprint::finger("n".to_string(), &content);
    let bits = all_bits(&f);
    for i in 0..SEGMENT_COUNT - 1 {
        assert_eq!(bits[i], content[i + 1] >= content[i], "bit {}", i);
    }
    assert_eq!(bits[SEGMENT_COUNT - 1], content[0] >= content[SEGMENT_COUNT - 1]);
}
