use algods::bencode::Bencode;
use algods::bencode::BencodeError;
use algods::binary_array_set::BinaryArraySet;
use algods::binary_indexed_tree::BinaryIndexedTree;
use algods::crc32_math::apply_crc_patch;
use algods::crc32_math::compute_crc32;
use algods::crc32_math::compute_crc_patch;
use algods::crc32_math::reverse_bits32;
use algods::disjoint_set::DisjointSet;
use algods::sieves::sieve_omega;
use algods::sieves::sieve_primeness;
use algods::sieves::sieve_radical;
use algods::sieves::sieve_smallest_prime_factor;
use algods::sieves::sieve_totient;
use algods::sliding_window::compute_sliding_window_min_or_max;
use algods::sliding_window::SlidingWindowMinMax;
use algods::text_algos::kmp_search;
use algods::text_algos::next_permutation;
use algods::totp::calc_hotp;
use algods::totp::calc_totp;
use algods::totp::decode_base32;

#[test]
fn test_binary_array_set_basics() {
    let mut s = BinaryArraySet::new();
    assert!(s.is_empty());
    for v in [4, 1, 9, 4, 7, 1, 0, -3] {
        s.insert(v);
    }
    assert_eq!(s.len(), 6);
    assert!(!s.is_empty());
    for v in [4, 1, 9, 7, 0, -3] {
        assert!(s.contains(v));
    }
    assert!(!s.contains(2));
    assert!(!s.insert(9));
    assert_eq!(s.len(), 6);
    assert!(s.check_structure());
    s.clear();
    assert!(s.is_empty());
    assert!(!s.contains(4));
    assert!(s.check_structure());
}

#[test]
fn test_binary_array_set_many() {
    let mut s = BinaryArraySet::new();
    for v in 0..200 {
        assert!(s.insert(v * 3));
        assert!(s.check_structure());
    }
    for v in 0..200 {
        assert!(s.contains(v * 3));
    }
    assert_eq!(s.len(), 200);
}

#[test]
fn test_sliding_window_compute() {
    let data = vec![5, 2, 8, 6, 4, 7, 1, 9];
    let mins = compute_sliding_window_min_or_max(&data, 3, false);
    assert_eq!(mins, vec![2, 2, 4, 4, 1, 1]);
    let maxs = compute_sliding_window_min_or_max(&data, 3, true);
    assert_eq!(maxs, vec![8, 8, 8, 7, 7, 9]);
    let empty = compute_sliding_window_min_or_max(&data, 9, true);
    assert_eq!(empty.len(), 0);
    let whole = compute_sliding_window_min_or_max(&data, 8, false);
    assert_eq!(whole, vec![1]);
}

#[test]
fn test_sliding_window_incremental() {
    let mut sw = SlidingWindowMinMax::new();
    sw.add_tail(5);
    sw.add_tail(2);
    sw.add_tail(8);
    assert_eq!(sw.get_minimum(), 2);
    assert_eq!(sw.get_maximum(), 8);
    sw.remove_head(5);
    assert_eq!(sw.get_minimum(), 2);
    sw.remove_head(2);
    assert_eq!(sw.get_minimum(), 8);
    assert_eq!(sw.get_maximum(), 8);
}

#[test]
fn test_disjoint_set_merges() {
    let mut ds = DisjointSet::new(8);
    assert_eq!(ds.get_num_elems(), 8);
    assert_eq!(ds.get_num_sets(), 8);
    assert!(!ds.are_in_same_set(0, 1));
    assert!(ds.merge_sets(0, 1));
    assert!(ds.are_in_same_set(0, 1));
    assert!(!ds.merge_sets(1, 0));
    assert_eq!(ds.get_num_sets(), 7);
    assert!(ds.merge_sets(2, 3));
    assert!(ds.merge_sets(0, 3));
    assert!(ds.are_in_same_set(1, 2));
    assert_eq!(ds.get_size_of_set(3), 4);
    assert_eq!(ds.get_size_of_set(7), 1);
    assert_eq!(ds.get_num_sets(), 5);
    assert!(ds.check_structure());
    let idx = ds.add_set();
    assert_eq!(idx, 8);
    assert_eq!(ds.get_num_sets(), 6);
    assert!(ds.check_structure());
}

#[test]
fn test_binary_indexed_tree_sums() {
    let vals = vec![3i64, -1, 4, 1, 5, -9, 2, 6];
    let mut t = BinaryIndexedTree::new_array(&vals);
    assert_eq!(t.len(), 8);
    assert_eq!(t.get_total(), 11);
    assert_eq!(t.get_prefix_sum(0), 0);
    assert_eq!(t.get_prefix_sum(3), 6);
    assert_eq!(t.get_range_sum(2, 5), 10);
    for (i, v) in vals.iter().enumerate() {
        assert_eq!(t.get(i), *v);
    }
    t.add(2, 10);
    assert_eq!(t.get(2), 14);
    assert_eq!(t.get_total(), 21);
    t.set(0, 0);
    assert_eq!(t.get(0), 0);
    assert_eq!(t.get_total(), 18);
    let z = BinaryIndexedTree::new_size(5);
    assert_eq!(z.get_total(), 0);
}

#[test]
fn test_sieve_primeness_values() {
    let primes = sieve_primeness(30);
    let expected: Vec<usize> = vec![2, 3, 5, 7, 11, 13, 17, 19, 23, 29];
    for i in 0..=30usize {
        assert_eq!(primes[i], expected.contains(&i), "at {}", i);
    }
}

#[test]
fn test_sieve_tables() {
    let spf = sieve_smallest_prime_factor(12);
    assert_eq!(spf[0], 0);
    assert_eq!(spf[1], 1);
    assert_eq!(&spf[2..], &[2, 3, 2, 5, 2, 7, 2, 3, 2, 11, 2]);
    let tot = sieve_totient(10);
    assert_eq!(&tot[..], &[0, 1, 1, 2, 2, 4, 2, 6, 4, 6, 4]);
    let omega = sieve_omega(12);
    assert_eq!(&omega[..], &[0, 0, 1, 1, 1, 1, 2, 1, 1, 1, 2, 1, 2]);
    let rad = sieve_radical(12);
    assert_eq!(&rad[..], &[0, 1, 2, 3, 2, 5, 6, 7, 2, 3, 10, 11, 6]);
}

#[test]
fn test_bencode_serialize() {
    assert_eq!(Bencode::Int(-42).to_bytes(), b"i-42e".to_vec());
    assert_eq!(Bencode::Int(0).to_bytes(), b"i0e".to_vec());
    assert_eq!(Bencode::Bytes(b"hello".to_vec()).to_bytes(), b"5:hello".to_vec());
    let list = Bencode::List(vec![Bencode::Int(3), Bencode::Bytes(b"ab".to_vec())]);
    assert_eq!(list.to_bytes(), b"li3e2:abe".to_vec());
    let dict = Bencode::Dict(vec![
        (b"a".to_vec(), Bencode::Int(1)),
        (b"b".to_vec(), Bencode::List(vec![])),
    ]);
    assert_eq!(dict.to_bytes(), b"d1:ai1e1:blee".to_vec());
}

#[test]
fn test_bencode_parse_round_trip() {
    for encoded in [
        b"i-42e".to_vec(),
        b"i0e".to_vec(),
        b"5:hello".to_vec(),
        b"li3e2:abe".to_vec(),
        b"d1:ai1e1:blee".to_vec(),
        b"0:".to_vec(),
    ] {
        let value = Bencode::parse(&encoded).unwrap();
        assert_eq!(value.to_bytes(), encoded);
    }
}

#[test]
fn test_bencode_parse_errors() {
    assert_eq!(Bencode::parse(&b"".to_vec()).err(), Some(BencodeError::UnexpectedEnd));
    assert_eq!(Bencode::parse(&b"i12".to_vec()).err(), Some(BencodeError::UnexpectedEnd));
    assert_eq!(Bencode::parse(&b"i03e".to_vec()).err(), Some(BencodeError::InvalidData));
    assert_eq!(Bencode::parse(&b"i-0e".to_vec()).err(), Some(BencodeError::InvalidData));
    assert_eq!(Bencode::parse(&b"x".to_vec()).err(), Some(BencodeError::InvalidData));
    assert_eq!(Bencode::parse(&b"i1ei2e".to_vec()).err(), Some(BencodeError::InvalidData));
    assert_eq!(Bencode::parse(&b"3:ab".to_vec()).err(), Some(BencodeError::UnexpectedEnd));
    assert_eq!(
        Bencode::parse(&b"d1:bi1e1:ai2ee".to_vec()).err(),
        Some(BencodeError::InvalidData)
    );
}

#[test]
fn test_crc_patch_pipeline() {
    let mut data: Vec<u8> = (0u8..64).collect();
    let offset = 20usize;
    let newcrc_display: u32 = 0xDEADBEEF;
    let newcrc = reverse_bits32(newcrc_display);
    let crc = compute_crc32(&data);
    let tail = (data.len() - offset) as u64;
    let delta = compute_crc_patch(tail, crc, newcrc).unwrap();
    let window: Vec<u8> = data[offset..offset + 4].to_vec();
    let patched = apply_crc_patch(&window, reverse_bits32(delta));
    for k in 0..4 {
        data[offset + k] = patched[k];
    }
    assert_eq!(compute_crc32(&data), newcrc);
}

#[test]
fn test_hotp_codes() {
    let cases: Vec<(u64, &[u8])> = vec![
        (0, b"284755224"),
        (1, b"094287082"),
        (2, b"137359152"),
        (3, b"726969429"),
        (4, b"640338314"),
    ];
    let secret = b"12345678901234567890".to_vec();
    for (counter, expect) in cases {
        let counter_bytes = counter.to_be_bytes().to_vec();
        let actual = calc_hotp(secret.clone(), &counter_bytes, 9, 64);
        assert_eq!(actual, expect.to_vec());
    }
}

#[test]
fn test_totp_codes() {
    let cases: Vec<(i64, &[u8])> = vec![
        (59, b"94287082"),
        (1111111109, b"07081804"),
        (1111111111, b"14050471"),
        (1234567890, b"89005924"),
        (2000000000, b"69279037"),
        (20000000000, b"65353130"),
    ];
    let secret = b"12345678901234567890".to_vec();
    for (timestamp, expect) in cases {
        let actual = calc_totp(secret.clone(), 0, 30, timestamp, 8, 64);
        assert_eq!(actual, expect.to_vec());
    }
}

#[test]
fn test_decode_base32() {
    let decoded = decode_base32(&b"MZXW6YTBOI".to_vec()).unwrap();
    assert_eq!(decoded, b"foobar".to_vec());
    let spaced = decode_base32(&b"mz xw 6y tb oi".to_vec()).unwrap();
    assert_eq!(spaced, b"foobar".to_vec());
    assert!(decode_base32(&b"1!".to_vec()).is_none());
}

#[test]
fn test_kmp_search() {
    assert_eq!(kmp_search(&b"abc".to_vec(), &b"zzabcy".to_vec()), Some(2));
    assert_eq!(kmp_search(&b"aab".to_vec(), &b"aaaab".to_vec()), Some(2));
    assert_eq!(kmp_search(&b"xyz".to_vec(), &b"zzabcy".to_vec()), None);
    assert_eq!(kmp_search(&b"".to_vec(), &b"anything".to_vec()), Some(0));
}

#[test]
fn test_next_permutation_steps() {
    let mut a = vec![1, 2, 3];
    assert!(next_permutation(&mut a));
    assert_eq!(a, vec![1, 3, 2]);
    assert!(next_permutation(&mut a));
    assert_eq!(a, vec![2, 1, 3]);
    let mut b = vec![3, 2, 1];
    assert!(!next_permutation(&mut b));
    assert_eq!(b, vec![3, 2, 1]);
    let mut c: Vec<i32> = vec![];
    assert!(!next_permutation(&mut c));
}
