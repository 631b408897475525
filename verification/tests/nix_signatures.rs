use base64::Engine;
use ed25519_dalek::{Signer, SigningKey};
use niphas::error::NiphasError;
use niphas::csi::checked_nar;
use niphas::hash::sha256_hash;
use niphas::nar::NarNode;
use niphas::narinfo::{Compression, NarInfo};
use niphas::signature::{verify_narinfo, NarSignature, TrustedKey};

#[test]
fn test_parse_signature() {
    let sig_str = "cache.nixos.org-1:tPtJYPW0S7siMoEqP85L2GMl44GVDBR2JFGBkUAjS+iCT1SQmyxs3JmfrvfNS5FCr7VIY+PF1sC+hJ3BL0lVDg==";
    let sig = NarSignature::parse(sig_str).unwrap();
    assert_eq!(sig.key_name, "cache.nixos.org-1");
}

#[test]
fn test_parse_trusted_key() {
    let key_str = "cache.nixos.org-1:6NCHdD59X431o0gWypbMrAURkbJ16ZPMQFGspcDShjY=";
    let key = TrustedKey::parse(key_str).unwrap();
    assert_eq!(key.name, "cache.nixos.org-1");
}

#[test]
fn test_invalid_signature_format() {
    assert!(NarSignature::parse("no-colon-here").is_err());
}

#[test]
fn test_invalid_key_format() {
    assert!(TrustedKey::parse("no-colon-here").is_err());
}

#[test]
fn test_wrong_key_length() {
    // Too short base64
    assert!(TrustedKey::parse("test:AAAA").is_err());
}

// -- own tests --

fn b64(bytes: &[u8]) -> String {
    base64::engine::general_purpose::STANDARD.encode(bytes)
}

fn signing_key() -> SigningKey {
    SigningKey::from_bytes(&[7u8; 32])
}

fn trusted(name: &str) -> TrustedKey {
    let pk = signing_key().verifying_key().to_bytes();
    TrustedKey::parse(&format!("{}:{}", name, b64(&pk))).unwrap()
}

fn signed(name: &str, msg: &str) -> NarSignature {
    let sig = signing_key().sign(msg.as_bytes()).to_bytes();
    NarSignature::parse(&format!("{}:{}", name, b64(&sig))).unwrap()
}

#[test]
fn parsed_key_and_signature_hold_the_decoded_bytes() {
    let key = trusted("test-1");
    assert_eq!(key.pubkey, signing_key().verifying_key().to_bytes());
    let sig = signed("test-1", "fp");
    assert_eq!(sig.signature, signing_key().sign(b"fp").to_bytes());
}

#[test]
fn verify_accepts_a_matching_signature() {
    let fp = "1;/nix/store/00bgd045z0d4icpbc2yyz4gx48ak44la-x;sha256:00;1;";
    let sigs = vec![signed("test-1", fp)];
    assert!(verify_narinfo(fp, &sigs, &[trusted("test-1")]).is_ok());
}

#[test]
fn verify_rejects_other_message_key_name_or_no_keys() {
    let fp = "1;fingerprint";
    let sigs = vec![signed("test-1", fp)];
    let expected = "no valid signature found matching any trusted key";
    match verify_narinfo("1;other", &sigs, &[trusted("test-1")]) {
        Err(NiphasError::SignatureVerification(m)) => assert_eq!(m, expected),
        other => panic!("unexpected {:?}", other),
    }
    assert!(verify_narinfo(fp, &sigs, &[trusted("other-1")]).is_err());
    assert!(verify_narinfo(fp, &sigs, &[]).is_err());
    assert!(verify_narinfo(fp, &[], &[trusted("test-1")]).is_err());
}

#[test]
fn signature_with_bad_base64_or_length() {
    match NarSignature::parse("k:!!!!") {
        Err(NiphasError::NarInfoParse(m)) => assert!(m.starts_with("invalid base64 in signature: ")),
        other => panic!("unexpected {:?}", other),
    }
    assert!(matches!(TrustedKey::parse("k:!!!!"), Err(NiphasError::SignatureVerification(_))));
    assert!(NarSignature::parse(&format!("k:{}", b64(&[1u8; 63]))).is_err());
    match TrustedKey::parse(&format!("k:{}", b64(&[1u8; 33]))) {
        Err(NiphasError::SignatureVerification(m)) => assert_eq!(m, "public key must be 32 bytes"),
        other => panic!("unexpected {:?}", other),
    }
}

#[test]
fn fetched_narinfo_needs_a_trusted_signature() {
    let text = "StorePath: /nix/store/00bgd045z0d4icpbc2yyz4gx48ak44la-net-tools-2.10\n\
URL: nar/x.nar\nCompression: none\n\
FileHash: sha256:0i6vphc9vnrfamvnwwb07rml60k3piqf8samh4pzlzcslwdg19bv\nFileSize: 3\n\
NarHash: sha256:18q15y2rlpyar84fl0yh27c5b7n8xqsa7n7a7hc7183md2v9k73s\nNarSize: 3\n";
    let mut info = niphas::narinfo::NarInfo::parse(text).unwrap();
    let keys = vec![trusted("test-1")];
    match niphas::csi::check_narinfo_signature(&info, &keys) {
        Err(NiphasError::SignatureVerification(m)) => {
            assert_eq!(m, "no valid signature found matching any trusted key")
        }
        other => panic!("unexpected {:?}", other),
    }
    let fp = info.fingerprint();
    info.signatures.push(signed("test-1", &fp));
    assert!(niphas::csi::check_narinfo_signature(&info, &keys).is_ok());
    assert!(niphas::csi::check_narinfo_signature(&info, &[]).is_err());
}

fn symlink_nar_bytes(target: &str) -> Vec<u8> {
    let mut nar = Vec::new();
    for t in ["nix-archive-1", "(", "type", "symlink", "target", target, ")"] {
        let s = t.as_bytes();
        nar.extend((s.len() as u64).to_le_bytes());
        nar.extend_from_slice(s);
        nar.extend(std::iter::repeat_n(0u8, (8 - s.len() % 8) % 8));
    }
    nar
}

#[test]
fn fetched_nar_passes_signature_file_hash_and_nar_hash_in_order() {
    let nar = symlink_nar_bytes("/nix/store/abc-x/bin");
    let h = sha256_hash(&nar).to_string();
    let text = format!(
        "StorePath: /nix/store/00bgd045z0d4icpbc2yyz4gx48ak44la-x\nURL: nar/a.nar\n\
Compression: none\nFileHash: {h}\nFileSize: 3\nNarHash: {h}\nNarSize: 3\n"
    );
    let mut info = NarInfo::parse(&text).unwrap();
    let keys = vec![trusted("test-1")];

    match checked_nar(&info, &keys, &nar) {
        Err(NiphasError::SignatureVerification(m)) => {
            assert_eq!(m, "no valid signature found matching any trusted key")
        }
        other => panic!("unexpected {:?}", other),
    }
    let fp = info.fingerprint();
    info.signatures.push(signed("test-1", &fp));
    match checked_nar(&info, &keys, &nar) {
        Ok(NarNode::Symlink { target }) => assert_eq!(target, "/nix/store/abc-x/bin"),
        other => panic!("unexpected {:?}", other),
    }
    match checked_nar(&info, &keys, b"other bytes") {
        Err(NiphasError::HashMismatch { expected, actual }) => {
            assert_eq!(expected, h);
            assert_eq!(actual, sha256_hash(b"other bytes").to_string());
        }
        other => panic!("unexpected {:?}", other),
    }
    info.compression = Compression::Lz4;
    match checked_nar(&info, &keys, &nar) {
        Err(NiphasError::Cache(m)) => assert_eq!(m, "unsupported compression: lz4"),
        other => panic!("unexpected {:?}", other),
    }
}
