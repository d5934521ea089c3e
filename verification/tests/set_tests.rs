use numfst::{IntSet, IntSetBuilder, SetError};
use numfst::{decode_key, encode_key, sieve};

fn build(keys: &[u32]) -> Vec<u8> {
    let mut b = IntSetBuilder::new();
    for &k in keys {
        b.insert(k).unwrap();
    }
    b.finish().unwrap()
}

#[test]
fn codec_round_trip() {
    for &k in &[0u32, 1, 2, 255, 256, 258, 65535, 65536, 0x01020304, u32::MAX] {
        let bytes = encode_key(k);
        assert_eq!(bytes.len(), 4);
        assert_eq!(decode_key(&bytes), k);
    }
    assert_eq!(encode_key(258), vec![0u8, 0, 1, 2]);
    assert_eq!(encode_key(u32::MAX), vec![255u8, 255, 255, 255]);
}

#[test]
fn codec_preserves_order() {
    let samples = [0u32, 1, 2, 255, 256, 257, 65535, 65536, 0x01000000, u32::MAX - 1, u32::MAX];
    for &a in &samples {
        for &b in &samples {
            assert_eq!(a < b, encode_key(a) < encode_key(b));
        }
    }
}

#[test]
fn primes_scenario() {
    let primes = [2u32, 3, 5, 7, 11, 13, 17, 19, 23, 29];
    let buf = build(&primes);
    let set = IntSet::new(buf).unwrap();
    assert!(set.contains(11));
    assert!(!set.contains(12));
    assert_eq!(set.range(10, 20), vec![11, 13, 17, 19]);
    assert!(set.size() > 0);
}

#[test]
fn round_trip_exhaustive_small() {
    let keys = [2u32, 3, 5, 7, 11, 13, 17, 19, 23, 29];
    let set = IntSet::new(build(&keys)).unwrap();
    for k in 0u32..100 {
        assert_eq!(set.contains(k), keys.contains(&k), "key {}", k);
    }
}

#[test]
fn round_trip_extreme_keys() {
    let keys = [0u32, 1, 255, 256, 65535, 65536, 0x01020304, u32::MAX - 1, u32::MAX];
    let set = IntSet::new(build(&keys)).unwrap();
    for &k in &keys {
        assert!(set.contains(k));
    }
    for &k in &[2u32, 254, 257, 65534, 65537, 0x01020305, u32::MAX - 2] {
        assert!(!set.contains(k));
    }
}

#[test]
fn order_violation_poisons_builder() {
    let mut b = IntSetBuilder::new();
    b.insert(5).unwrap();
    assert_eq!(b.insert(5), Err(SetError::OrderViolation));
    assert_eq!(b.insert(4), Err(SetError::OrderViolation));
    // Even a correctly ordered key fails after a violation.
    assert_eq!(b.insert(7), Err(SetError::OrderViolation));
    assert_eq!(b.finish(), Err(SetError::OrderViolation));
}

#[test]
fn first_insert_always_succeeds() {
    let mut b = IntSetBuilder::new();
    assert_eq!(b.insert(0), Ok(()));
    let mut b2 = IntSetBuilder::new();
    assert_eq!(b2.insert(u32::MAX), Ok(()));
}

#[test]
fn range_bounds() {
    let keys = [2u32, 3, 5, 7, 11, 13, 17, 19, 23, 29];
    let set = IntSet::new(build(&keys)).unwrap();
    assert_eq!(set.range(0, u32::MAX), keys.to_vec());
    assert_eq!(set.range(2, 29), keys.to_vec());
    assert_eq!(set.range(3, 28), vec![3, 5, 7, 11, 13, 17, 19, 23]);
    assert_eq!(set.range(4, 4), Vec::<u32>::new());
    assert_eq!(set.range(5, 5), vec![5]);
    assert_eq!(set.range(30, 1000), Vec::<u32>::new());
    // low > high yields the empty sequence.
    assert_eq!(set.range(20, 10), Vec::<u32>::new());
}

#[test]
fn empty_set() {
    let b = IntSetBuilder::new();
    let buf = b.finish().unwrap();
    let set = IntSet::new(buf).unwrap();
    for &k in &[0u32, 1, 42, 65536, u32::MAX] {
        assert!(!set.contains(k));
    }
    assert_eq!(set.range(0, u32::MAX), Vec::<u32>::new());
    assert!(set.size() > 0);
}

#[test]
fn bytes_written_grows() {
    let mut b = IntSetBuilder::new();
    assert_eq!(b.bytes_written(), 0);
    b.insert(1).unwrap();
    b.insert(2).unwrap();
    b.insert(0x01000000).unwrap();
    // Departing from the shared prefix flushes finished states.
    let written: u64 = b.bytes_written();
    assert!(written > 0);
    let buf = b.finish().unwrap();
    let set = IntSet::new(buf).unwrap();
    assert!(set.size() >= written);
}

#[test]
fn suffix_sharing_shrinks_output() {
    // 64 keys whose encodings all end in the same three zero bytes...
    let mut shared = IntSetBuilder::new();
    for i in 0u32..64 {
        shared.insert(i << 24).unwrap();
    }
    let shared_len: usize = shared.finish().unwrap().len();
    // ...against 64 keys whose trailing bytes are pairwise distinct.
    let mut distinct = IntSetBuilder::new();
    for i in 0u32..64 {
        distinct.insert(i * 0x0101_0101).unwrap();
    }
    let distinct_len: usize = distinct.finish().unwrap().len();
    assert!(shared_len < distinct_len);
    // The shared-suffix automaton stays within a few states' worth of
    // bytes no matter how many keys reuse the suffix.
    let mut shared_half = IntSetBuilder::new();
    for i in 0u32..32 {
        shared_half.insert(i << 24).unwrap();
    }
    let shared_half_len: usize = shared_half.finish().unwrap().len();
    let mut distinct_half = IntSetBuilder::new();
    for i in 0u32..32 {
        distinct_half.insert(i * 0x0101_0101).unwrap();
    }
    let distinct_half_len: usize = distinct_half.finish().unwrap().len();
    assert!(shared_len - shared_half_len < distinct_len - distinct_half_len);
}

#[test]
fn load_rejects_malformed_buffers() {
    assert_eq!(IntSet::new(Vec::new()).err(), Some(SetError::FormatError));
    assert_eq!(IntSet::new(vec![0u8; 26]).err(), Some(SetError::FormatError));
    // A valid buffer, then tampered.
    let good = build(&[2u32, 3, 5]);
    assert!(IntSet::new(good.clone()).is_ok());
    let n: usize = good.len();
    let mut bad_version = good.clone();
    bad_version[n - 1] = 9;
    assert_eq!(IntSet::new(bad_version).err(), Some(SetError::FormatError));
    let mut truncated = good.clone();
    truncated.pop();
    assert_eq!(IntSet::new(truncated).err(), Some(SetError::FormatError));
    let mut bad_size = good.clone();
    bad_size[n - 12] = 1;
    assert_eq!(IntSet::new(bad_size).err(), Some(SetError::FormatError));
}

#[test]
fn sieve_produces_primes() {
    assert_eq!(sieve(0), Vec::<u32>::new());
    assert_eq!(sieve(1), Vec::<u32>::new());
    assert_eq!(sieve(2), Vec::<u32>::new());
    assert_eq!(sieve(3), vec![2]);
    assert_eq!(sieve(30), vec![2, 3, 5, 7, 11, 13, 17, 19, 23, 29]);
    assert_eq!(sieve(31), vec![2, 3, 5, 7, 11, 13, 17, 19, 23, 29]);
    assert_eq!(sieve(32), vec![2, 3, 5, 7, 11, 13, 17, 19, 23, 29, 31]);
}

#[test]
fn sieve_feeds_builder() {
    let primes = sieve(100);
    let set = IntSet::new(build(&primes)).unwrap();
    for k in 0u32..100 {
        assert_eq!(set.contains(k), primes.contains(&k));
    }
    assert_eq!(set.range(0, 99), primes);
}

#[test]
fn single_key_set() {
    let set = IntSet::new(build(&[12345])).unwrap();
    assert!(set.contains(12345));
    assert!(!set.contains(12344));
    assert!(!set.contains(12346));
    assert_eq!(set.range(0, u32::MAX), vec![12345]);
}

#[test]
fn dense_run_of_keys() {
    let keys: Vec<u32> = (1000..1256).collect();
    let set = IntSet::new(build(&keys)).unwrap();
    for k in 900u32..1400 {
        assert_eq!(set.contains(k), (1000..1256).contains(&k));
    }
    assert_eq!(set.range(1100, 1199), (1100..1200).collect::<Vec<u32>>());
}
