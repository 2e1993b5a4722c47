use sha2::Digest;
use uniclip::hashing::hash_img;

#[test]
fn hashing_is_idempotent() {
    let bytes: Vec<u8> = (0u32..1000).map(|i| (i % 251) as u8).collect();
    let h1 = hash_img(32, 32, &bytes);
    let h2 = hash_img(32, 32, &bytes);
    assert_eq!(h1, h2);
}

#[test]
fn single_byte_change_changes_the_hash() {
    let bytes: Vec<u8> = vec![0; 512];
    let mut changed = bytes.clone();
    changed[301] = 1;
    assert_ne!(hash_img(16, 8, &bytes), hash_img(16, 8, &changed));
}

#[test]
fn dimensions_are_part_of_the_identity() {
    let bytes: Vec<u8> = vec![7; 64];
    assert_ne!(hash_img(8, 8, &bytes), hash_img(4, 16, &bytes));
}

#[test]
fn hash_is_lowercase_hex_of_a_sha256_digest() {
    let bytes: Vec<u8> = b"pixels".to_vec();
    let got = hash_img(3, 2, &bytes);
    assert_eq!(got.len(), 64);
    assert!(got.iter().all(|b| b.is_ascii_hexdigit() && !b.is_ascii_uppercase()));

    let mut hasher = sha2::Sha256::new();
    hasher.update(3u64.to_le_bytes());
    hasher.update(2u64.to_le_bytes());
    hasher.update(&bytes);
    let expected = hex::encode(hasher.finalize()).into_bytes();
    assert_eq!(got, expected);
}
