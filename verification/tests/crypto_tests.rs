use elrond_codec::crypto::{keccak256, sha256};
use sha3::Digest;

#[test]
fn test_sha256_known_vector() {
    // SHA3-256 of the empty input
    let expected = hex::decode("a7ffc6f8bf1ed76651c14756a061d662f580ff4de43b49fa82d80a4b80f8434a")
        .unwrap();
    assert_eq!(sha256(b"").to_vec(), expected);
}

#[test]
fn test_keccak256_known_vector() {
    // Keccak-256 of the empty input
    let expected = hex::decode("c5d2460186f7233c927e7db2dcc703c0e500b653ca82273b7bfad8045d85a470")
        .unwrap();
    assert_eq!(keccak256(b"").to_vec(), expected);
}

#[test]
fn test_digests_match_direct_calls() {
    let data = b"hello world";
    assert_eq!(
        sha256(data).to_vec(),
        sha3::Sha3_256::digest(data).to_vec()
    );
    assert_eq!(
        keccak256(data).to_vec(),
        sha3::Keccak256::digest(data).to_vec()
    );
    // different inputs give different digests
    assert_ne!(sha256(b"a").to_vec(), sha256(b"b").to_vec());
}
