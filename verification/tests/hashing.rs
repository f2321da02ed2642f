use btclib::sha256::MerkleRoot;
use btclib::U256;

fn number(limbs: [u64; 4]) -> U256 {
    U256(limbs)
}

#[test]
fn zero_is_all_zero_limbs() {
    assert_eq!(U256::zero().0, [0, 0, 0, 0]);
}

#[test]
fn from_little_endian_reads_least_significant_byte_first() {
    let n = U256::from_little_endian(&[0x01, 0x02]);
    assert_eq!(n.0, [0x0201, 0, 0, 0]);
}

#[test]
fn from_little_endian_fills_higher_limbs() {
    let mut bytes = [0u8; 32];
    bytes[8] = 0xff;
    bytes[31] = 0x80;
    let n = U256::from_little_endian(&bytes);
    assert_eq!(n.0, [0, 0xff, 0, 0x8000_0000_0000_0000]);
}

#[test]
fn from_little_endian_of_nothing_is_zero() {
    assert_eq!(U256::from_little_endian(&[]).0, [0, 0, 0, 0]);
}

#[test]
fn to_little_endian_writes_each_limb() {
    let n = number([0x0807060504030201, 0, 0, 0xff]);
    let bytes = n.to_little_endian();
    assert_eq!(&bytes[..8], &[1, 2, 3, 4, 5, 6, 7, 8]);
    assert_eq!(bytes[24], 0xff);
    assert!(bytes[8..24].iter().all(|b| *b == 0));
    assert!(bytes[25..].iter().all(|b| *b == 0));
}

#[test]
fn little_endian_roundtrip() {
    let n = number([u64::MAX, 7, 0x1234_5678_9abc_def0, 42]);
    let back = U256::from_little_endian(&n.to_little_endian());
    assert_eq!(back.0, n.0);
}

#[test]
fn le_compares_most_significant_limb_first() {
    let small = number([u64::MAX, u64::MAX, u64::MAX, 0]);
    let large = number([0, 0, 0, 1]);
    assert!(small.le(&large));
    assert!(!large.le(&small));
    assert!(large.le(&large));
    assert!(number([1, 0, 0, 0]).le(&number([2, 0, 0, 0])));
    assert!(!number([3, 5, 0, 0]).le(&number([4, 4, 0, 0])));
}

#[test]
fn hash_of_hello_is_its_sha256_digest() {
    let expected = hex::decode("2cf24dba5fb0a30e26e83b2ac5b9e29e1b161e5c1fa7425e73043362938b9824").unwrap();
    let h = btclib::sha256::Hash::hash(b"hello");
    assert_eq!(h.to_little_endian().to_vec(), expected);
}

#[test]
fn hash_of_empty_input() {
    let expected = hex::decode("e3b0c44298fc1c149afbf4c8996fb92427ae41e4649b934ca495991b7852b855").unwrap();
    assert_eq!(btclib::sha256::Hash::hash(&[]).to_little_endian().to_vec(), expected);
}

#[test]
fn hash_is_deterministic_and_input_sensitive() {
    let a = btclib::sha256::Hash::hash(b"block");
    let b = btclib::sha256::Hash::hash(b"block");
    let c = btclib::sha256::Hash::hash(b"blocl");
    assert_eq!(a.to_little_endian(), b.to_little_endian());
    assert_ne!(a.to_little_endian(), c.to_little_endian());
}

#[test]
fn zero_hash_matches_every_target() {
    let z = btclib::sha256::Hash::zero();
    assert!(z.matches_target(U256::zero()));
    assert!(z.matches_target(number([5, 0, 0, 0])));
    assert_eq!(z.to_little_endian(), [0u8; 32]);
}

#[test]
fn hash_matches_target_at_or_above_it() {
    let h = btclib::sha256::Hash::hash(b"hello");
    let value = U256::from_little_endian(&h.to_little_endian());
    assert!(h.matches_target(value));
    assert!(h.matches_target(number([u64::MAX; 4])));
    assert!(!h.matches_target(U256::zero()));
}

#[test]
fn merkle_root_exists() {
    let _root = MerkleRoot;
}

#[test]
fn lower_hex_drops_leading_zeros() {
    assert_eq!(U256::zero().to_lower_hex(), "0");
    assert_eq!(number([0xff, 0, 0, 0]).to_lower_hex(), "ff");
    assert_eq!(number([0, 1, 0, 0]).to_lower_hex(), "10000000000000000");
    assert_eq!(number([0xa, 0, 0, 0x1]).to_lower_hex(), format!("1{}a", "0".repeat(47)));
    assert_eq!(number([u64::MAX; 4]).to_lower_hex(), "f".repeat(64));
}

#[test]
fn hash_is_displayed_in_lower_hex() {
    assert_eq!(btclib::sha256::Hash::zero().to_string(), "0");
    let h = btclib::sha256::Hash::hash(b"hello");
    let mut le = h.to_little_endian();
    le.reverse();
    let expected = hex::encode(le);
    assert_eq!(h.to_string(), expected.trim_start_matches('0'));
}

#[test]
fn hash_equality_follows_value() {
    let a = btclib::sha256::Hash::hash(b"x");
    let b = btclib::sha256::Hash::hash(b"x");
    assert!(a == b);
    assert!(a != btclib::sha256::Hash::zero());
    assert!(number([1, 2, 3, 4]) == number([1, 2, 3, 4]));
    assert!(number([1, 2, 3, 4]) != number([1, 2, 3, 5]));
}

#[test]
fn bytes_roundtrip_through_a_number() {
    let mut bytes = [0u8; 32];
    for (i, b) in bytes.iter_mut().enumerate() {
        *b = (i as u8).wrapping_mul(37).wrapping_add(11);
    }
    assert_eq!(U256::from_little_endian(&bytes).to_little_endian(), bytes);
}
