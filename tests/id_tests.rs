use kademlia_node::config::{C1, ID_LEN, N_BITS};
use kademlia_node::id::{bucket_index, closer_or_equal, count_leading_zero_bits, meets_difficulty, xor_bytes};
use kademlia_node::identity::{node_id_from_public_key, Identity};

#[test]
fn xor_bytes_uses_shorter_length() {
    assert_eq!(xor_bytes(&[0xff, 0x0f, 0x01], &[0x0f, 0x0f]), vec![0xf0, 0x00]);
    assert_eq!(xor_bytes(&[], &[1, 2]), Vec::<u8>::new());
}

#[test]
fn leading_zero_bits_counts_across_bytes() {
    assert_eq!(count_leading_zero_bits(&[]), 0);
    assert_eq!(count_leading_zero_bits(&[0x80]), 0);
    assert_eq!(count_leading_zero_bits(&[0x01]), 7);
    assert_eq!(count_leading_zero_bits(&[0x00, 0x00, 0x10]), 19);
    assert_eq!(count_leading_zero_bits(&[0x00, 0x00]), 16);
}

#[test]
fn bucket_index_of_equal_ids_wraps_to_zero() {
    let a = [7u8; 20];
    assert_eq!(bucket_index(&a, &a), 0);
    let mut b = a;
    b[0] ^= 0x80;
    assert_eq!(bucket_index(&b, &a), 0);
    let mut c = a;
    c[19] ^= 0x01;
    assert_eq!(bucket_index(&c, &a), 159);
    let mut d = a;
    d[1] ^= 0x20;
    assert_eq!(bucket_index(&d, &a), 10);
    assert_eq!(N_BITS, ID_LEN * 8);
}

#[test]
fn closer_or_equal_compares_xor_as_big_endian() {
    let target = [0u8; 4];
    assert!(closer_or_equal(&[0, 0, 0, 9], &[0, 0, 1, 0], &target));
    assert!(!closer_or_equal(&[0, 1, 0, 0], &[0, 0, 255, 255], &target));
    assert!(closer_or_equal(&[1, 2, 3, 4], &[1, 2, 3, 4], &target));
    let t2 = [0xff, 0, 0, 0];
    assert!(closer_or_equal(&[0xff, 0, 0, 1], &[0, 0, 0, 0], &t2));
}

#[test]
fn meets_difficulty_thresholds() {
    assert!(meets_difficulty(&[0x00, 0x7f], 9));
    assert!(!meets_difficulty(&[0x00, 0x7f], 10));
    assert!(meets_difficulty(&[0xff], 0));
}

#[test]
fn generated_identity_meets_difficulty() {
    let difficulty = 6;
    let identity = Identity::generate(difficulty, 100_000).expect("an identity");
    assert_eq!(identity.public_key.len(), 32);
    assert!(count_leading_zero_bits(&identity.id) >= difficulty as usize);
    let digest = ring::digest::digest(&ring::digest::SHA256, &identity.public_key);
    assert!(count_leading_zero_bits(digest.as_ref()) >= difficulty as usize);
    assert_eq!(&identity.id[..], &digest.as_ref()[..20]);
    assert_eq!(node_id_from_public_key(&identity.public_key), identity.id);
}

#[test]
fn identity_with_default_difficulty() {
    let identity = Identity::generate(C1, 100_000).expect("an identity");
    assert!(count_leading_zero_bits(&identity.id) >= C1 as usize);
}

#[test]
fn identity_generation_gives_up_after_its_attempts() {
    assert!(Identity::generate(160, 3).is_none());
    assert!(Identity::generate(0, 0).is_none());
}

#[test]
fn node_id_is_digest_prefix() {
    let id = node_id_from_public_key(b"abc");
    assert_eq!(hex::encode(id), "ba7816bf8f01cfea414140de5dae2223b00361a3");
}
