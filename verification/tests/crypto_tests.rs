use private_token_client::{
    bytes32_to_hex, compute_commitment, compute_nullifier, derive_address, generate_secret,
    hex_to_bytes32, pedersen_hash, u128_to_bytes32, u64_to_bytes32, ClientError,
};
use rand::RngCore;
use sha2::Digest;
use std::collections::HashSet;

#[test]
fn test_generate_secret() {
    let secret1 = generate_secret();
    let secret2 = generate_secret();
    assert_ne!(secret1, secret2);
}

#[test]
fn test_derive_address() {
    let secret = generate_secret();
    let address1 = derive_address(&secret);
    let address2 = derive_address(&secret);
    assert_eq!(address1, address2);
}

#[test]
fn test_commitment_deterministic() {
    let address = generate_secret();
    let balance = 100u128;
    let nonce = 1u64;

    let commitment1 = compute_commitment(&address, balance, nonce);
    let commitment2 = compute_commitment(&address, balance, nonce);
    assert_eq!(commitment1, commitment2);
}

#[test]
fn test_nullifier_deterministic() {
    let secret = generate_secret();
    let nonce = 1u64;

    let nullifier1 = compute_nullifier(&secret, nonce);
    let nullifier2 = compute_nullifier(&secret, nonce);
    assert_eq!(nullifier1, nullifier2);
}

#[test]
fn test_hex_conversion() {
    let bytes = generate_secret();
    let hex_str = bytes32_to_hex(&bytes);
    let recovered = hex_to_bytes32(&hex_str).unwrap();
    assert_eq!(bytes, recovered);
}

#[test]
fn test_commitment_collision_resistance() {
    // Ten thousand random distinct (address, balance, nonce) triples must
    // give ten thousand distinct commitments.
    let mut rng = rand::thread_rng();
    let mut seen: HashSet<[u8; 32]> = HashSet::new();
    let mut triples: HashSet<([u8; 32], u128, u64)> = HashSet::new();
    while triples.len() < 10_000 {
        let mut address = [0u8; 32];
        rng.fill_bytes(&mut address);
        let balance = ((rng.next_u64() as u128) << 64) | rng.next_u64() as u128;
        let nonce = rng.next_u64();
        if triples.insert((address, balance, nonce)) {
            let c = compute_commitment(&address, balance, nonce);
            assert!(seen.insert(c), "commitment collision");
        }
    }
}

#[test]
fn test_address_injectivity() {
    // Ten thousand random distinct secrets must give distinct addresses.
    let mut secrets: HashSet<[u8; 32]> = HashSet::new();
    let mut addresses: HashSet<[u8; 32]> = HashSet::new();
    while secrets.len() < 10_000 {
        let secret = generate_secret();
        if secrets.insert(secret) {
            let a = derive_address(&secret);
            assert!(addresses.insert(a), "address collision");
        }
    }
}

#[test]
fn test_derive_address_known_vector() {
    // The digest of 32 zero bytes under SHA-256; fails if the hash wrapper
    // handed its input back unchanged.
    let zero = [0u8; 32];
    let address = derive_address(&zero);
    assert_eq!(
        bytes32_to_hex(&address),
        "0x66687aadf862bd776c8fc18b8e9f8e20089714856ee233b3902a591d0d5f2925"
    );
    assert_ne!(address, zero);
}

#[test]
fn test_pedersen_hash_concatenates() {
    // Hashing [a, b] as blocks equals one SHA-256 over their
    // concatenation, computed independently through the sha2 crate.
    let a = [3u8; 32];
    let b = [7u8; 32];
    let joint = pedersen_hash(&[a, b]);
    let mut concat = Vec::new();
    concat.extend_from_slice(&a);
    concat.extend_from_slice(&b);
    let d = sha2::Sha256::digest(&concat);
    let mut expected = [0u8; 32];
    expected.copy_from_slice(&d);
    assert_eq!(joint, expected);
}

#[test]
fn test_hex_matches_hex_crate() {
    // The library's hex rendering must agree with the hex crate.
    let bytes = generate_secret();
    let ours = bytes32_to_hex(&bytes);
    let theirs = format!("0x{}", hex::encode(bytes));
    assert_eq!(ours, theirs);
}

#[test]
fn test_u128_to_bytes32_exact() {
    let b = u128_to_bytes32(0x0102u128);
    let mut expected = [0u8; 32];
    expected[30] = 1;
    expected[31] = 2;
    assert_eq!(b, expected);

    let n = u64_to_bytes32(0xff00ff00ff00ff00u64);
    let mut expected_n = [0u8; 32];
    expected_n[24] = 0xff;
    expected_n[26] = 0xff;
    expected_n[28] = 0xff;
    expected_n[30] = 0xff;
    assert_eq!(n, expected_n);
}

#[test]
fn test_hex_to_bytes32_pads_short_values() {
    let b = hex_to_bytes32("0x01").unwrap();
    let mut expected = [0u8; 32];
    expected[31] = 1;
    assert_eq!(b, expected);

    let without_prefix = hex_to_bytes32("01").unwrap();
    assert_eq!(without_prefix, expected);

    let empty = hex_to_bytes32("").unwrap();
    assert_eq!(empty, [0u8; 32]);
}

#[test]
fn test_hex_to_bytes32_rejects_odd_length() {
    let r = hex_to_bytes32("0x123");
    assert!(matches!(r, Err(ClientError::InvalidInput(_))));
}

#[test]
fn test_hex_to_bytes32_rejects_bad_digit() {
    let r = hex_to_bytes32("0xzz");
    assert!(matches!(r, Err(ClientError::InvalidInput(_))));
}

#[test]
fn test_hex_to_bytes32_rejects_wide_values() {
    // 33 bytes of hex is wider than the 32-byte field width.
    let wide = format!("0x{}", "ab".repeat(33));
    let r = hex_to_bytes32(&wide);
    assert!(matches!(r, Err(ClientError::InvalidInput(_))));
}

#[test]
fn test_bytes32_to_hex_exact() {
    let mut bytes = [0u8; 32];
    bytes[0] = 0xde;
    bytes[1] = 0xad;
    bytes[31] = 0x01;
    assert_eq!(
        bytes32_to_hex(&bytes),
        "0xdead000000000000000000000000000000000000000000000000000000000001"
    );
}
