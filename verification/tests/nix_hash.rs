use niphas::hash::{from_nix_base32, sha256_hash, to_nix_base32, HashAlgo, NixHash};
use niphas::error::NiphasError;

#[test]
fn test_nix_base32_roundtrip() {
    let data = b"hello world";
    let encoded = to_nix_base32(data);
    let decoded = from_nix_base32(&encoded).unwrap();
    assert_eq!(data.as_slice(), &decoded);
}

#[test]
fn test_nix_base32_empty() {
    assert_eq!(to_nix_base32(b""), "");
    assert_eq!(from_nix_base32("").unwrap(), Vec::<u8>::new());
}

#[test]
fn test_nix_base32_known_vector() {
    // SHA-256 of empty string = e3b0c44298fc1c149afbf4c8996fb92427ae41e4649b934ca495991b7852b855
    let sha256_empty = [
        0xe3, 0xb0, 0xc4, 0x42, 0x98, 0xfc, 0x1c, 0x14, 0x9a, 0xfb, 0xf4, 0xc8, 0x99, 0x6f,
        0xb9, 0x24, 0x27, 0xae, 0x41, 0xe4, 0x64, 0x9b, 0x93, 0x4c, 0xa4, 0x95, 0x99, 0x1b,
        0x78, 0x52, 0xb8, 0x55,
    ];
    let encoded = to_nix_base32(&sha256_empty);
    // Should be 52 chars (32 * 8 / 5 = 51.2, ceil = 52)
    assert_eq!(encoded.len(), 52);
    let decoded = from_nix_base32(&encoded).unwrap();
    assert_eq!(decoded, sha256_empty);
}

#[test]
fn test_nix_hash_parse() {
    // Generate a valid nix-base32 encoded SHA-256 hash
    let hash = sha256_hash(b"test");
    let nix_str = hash.to_string();
    let parsed = NixHash::parse(&nix_str).unwrap();
    assert_eq!(parsed.algo, HashAlgo::Sha256);
    assert_eq!(parsed.digest.len(), 32);
    assert_eq!(parsed, hash);
}

#[test]
fn test_nix_hash_roundtrip() {
    let hash = sha256_hash(b"test data");
    let s = hash.to_string();
    let parsed = NixHash::parse(&s).unwrap();
    assert_eq!(hash, parsed);
}

#[test]
fn test_invalid_base32_char() {
    assert!(from_nix_base32("hello!").is_err());
}

#[test]
fn test_hash_verify() {
    let data = b"hello";
    let hash = sha256_hash(data);
    assert!(hash.verify(data).is_ok());
    assert!(hash.verify(b"world").is_err());
}

// -- own tests --

#[test]
fn sha256_of_empty_input_is_the_known_digest() {
    let h = sha256_hash(b"");
    assert_eq!(
        h.to_string(),
        "sha256:0mdqa9w1p6cmli6976v4wi0sw9r4p5prkj7lzfd1877wk11c9c73"
    );
}

#[test]
fn sha256_digest_differs_from_its_input() {
    let h = sha256_hash(b"abc");
    assert_eq!(h.digest.len(), 32);
    assert_ne!(h.digest, b"abc".to_vec());
    assert_eq!(h.digest[0], 0xba);
    assert_eq!(h.digest[31], 0xad);
}

#[test]
fn nix_base32_single_byte() {
    assert_eq!(to_nix_base32(&[0x00]), "00");
    assert_eq!(to_nix_base32(&[0xff]), "7z");
    assert_eq!(from_nix_base32("7z").unwrap(), vec![0xff]);
}

#[test]
fn nix_hash_parse_errors() {
    assert!(matches!(NixHash::parse("sha256"), Err(NiphasError::NarInfoParse(_))));
    assert!(matches!(NixHash::parse("crc32:00"), Err(NiphasError::NarInfoParse(_))));
    assert!(matches!(NixHash::parse("sha256:00"), Err(NiphasError::NarInfoParse(_))));
}

#[test]
fn hash_verify_rejects_other_algorithms() {
    let h = NixHash { algo: HashAlgo::Sha1, digest: vec![0u8; 20] };
    assert!(h.verify(b"x").is_err());
}

#[test]
fn digest_lengths() {
    assert_eq!(HashAlgo::Sha256.digest_len(), 32);
    assert_eq!(HashAlgo::Sha512.digest_len(), 64);
    assert_eq!(HashAlgo::Sha1.digest_len(), 20);
    assert_eq!(HashAlgo::Md5.digest_len(), 16);
}

#[test]
fn parse_error_messages() {
    assert_eq!(
        from_nix_base32("hello!").unwrap_err(),
        NiphasError::NarInfoParse("invalid nix-base32 character: '!'".into())
    );
    assert_eq!(
        from_nix_base32("0é0").unwrap_err(),
        NiphasError::NarInfoParse("invalid nix-base32 character: 'é'".into())
    );
    assert_eq!(
        NixHash::parse("crc32:00").unwrap_err(),
        NiphasError::NarInfoParse("unknown hash algorithm: 'crc32'".into())
    );
    assert_eq!(
        NixHash::parse("sha256:00").unwrap_err(),
        NiphasError::NarInfoParse("hash digest length mismatch: expected 32, got 1".into())
    );
    assert_eq!(
        NixHash::parse("sha256").unwrap_err(),
        NiphasError::NarInfoParse("hash missing ':' separator".into())
    );
    assert_eq!(
        NixHash { algo: HashAlgo::Md5, digest: vec![0; 16] }.verify(b"x").unwrap_err(),
        NiphasError::NarInfoParse("verification not implemented for md5".into())
    );
}
