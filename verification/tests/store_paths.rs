use niphas::error::NiphasError;
use niphas::store_path::{StorePath, StorePathRef};

#[test]
fn test_parse_full_path() {
    let path = "/nix/store/00bgd045z0d4icpbc2yyz4gx48ak44la-net-tools-2.10";
    let sp = StorePath::parse(path).unwrap();
    assert_eq!(sp.name, "net-tools-2.10");
    assert_eq!(sp.to_string(), path);
}

#[test]
fn test_parse_basename() {
    let basename = "00bgd045z0d4icpbc2yyz4gx48ak44la-net-tools-2.10";
    let sp = StorePath::parse_basename(basename).unwrap();
    assert_eq!(sp.name, "net-tools-2.10");
    assert_eq!(sp.basename(), basename);
}

#[test]
fn test_invalid_prefix() {
    assert!(StorePath::parse("/usr/bin/hello").is_err());
}

#[test]
fn test_too_short() {
    assert!(StorePath::parse("/nix/store/abc").is_err());
}

#[test]
fn test_store_path_ref() {
    let r = StorePathRef::parse("00bgd045z0d4icpbc2yyz4gx48ak44la-net-tools-2.10").unwrap();
    assert_eq!(
        r.to_store_path_string(),
        "/nix/store/00bgd045z0d4icpbc2yyz4gx48ak44la-net-tools-2.10"
    );
}

#[test]
fn test_hash_extraction() {
    let sp =
        StorePath::parse("/nix/store/00bgd045z0d4icpbc2yyz4gx48ak44la-net-tools-2.10").unwrap();
    let hash = sp.hash_str();
    assert_eq!(hash.len(), 32);
    assert_eq!(hash, "00bgd045z0d4icpbc2yyz4gx48ak44la");
}

#[test]
fn test_roundtrip() {
    let text = "/nix/store/00bgd045z0d4icpbc2yyz4gx48ak44la-net-tools-2.10";
    let sp = StorePath::parse(text).unwrap();
    assert_eq!(sp.to_string(), text);
}

// -- own tests --

#[test]
fn store_path_error_messages() {
    match StorePath::parse("/usr/bin/hello") {
        Err(NiphasError::InvalidStorePath(m)) => {
            assert_eq!(m, "missing /nix/store/ prefix: '/usr/bin/hello'")
        }
        other => panic!("unexpected {:?}", other),
    }
    match StorePath::parse("/nix/store/abc") {
        Err(NiphasError::InvalidStorePath(m)) => {
            assert_eq!(m, "store path basename too short: 'abc'")
        }
        other => panic!("unexpected {:?}", other),
    }
    match StorePath::parse_basename("00bgd045z0d4icpbc2yyz4gx48ak44laXnet") {
        Err(NiphasError::InvalidStorePath(m)) => {
            assert_eq!(m, "expected '-' after hash in store path: '00bgd045z0d4icpbc2yyz4gx48ak44laXnet'")
        }
        other => panic!("unexpected {:?}", other),
    }
    // `e`, `o`, `u` and `t` are not nix-base32 digits
    assert!(matches!(
        StorePath::parse_basename("e0bgd045z0d4icpbc2yyz4gx48ak44la-x"),
        Err(NiphasError::NarInfoParse(_))
    ));
}

#[test]
fn store_path_hash_bytes_roundtrip() {
    let sp = StorePath::parse_basename("3n58xw4373jp0ljirf06d8077j15pc4j-glibc-2.37-8").unwrap();
    assert_eq!(sp.hash.len(), 20);
    assert_eq!(sp.hash_str(), "3n58xw4373jp0ljirf06d8077j15pc4j");
    assert_eq!(sp.basename(), "3n58xw4373jp0ljirf06d8077j15pc4j-glibc-2.37-8");
    let c = sp.clone();
    assert_eq!(c, sp);
}

#[test]
fn store_path_ref_rejects_invalid_and_displays() {
    assert!(StorePathRef::parse("short").is_err());
    let r = StorePathRef::parse("3n58xw4373jp0ljirf06d8077j15pc4j-glibc").unwrap();
    assert_eq!(r.as_str(), "3n58xw4373jp0ljirf06d8077j15pc4j-glibc");
    assert_eq!(r.to_string(), "3n58xw4373jp0ljirf06d8077j15pc4j-glibc");
}

#[test]
fn name_needs_at_least_one_char() {
    assert!(StorePath::parse_basename("00bgd045z0d4icpbc2yyz4gx48ak44la-").is_err());
    let sp = StorePath::parse_basename("00bgd045z0d4icpbc2yyz4gx48ak44la-x").unwrap();
    assert_eq!(sp.name, "x");
}

#[test]
fn basename_parses_exactly_when_well_formed_and_writes_back() {
    let b = "00bgd045z0d4icpbc2yyz4gx48ak44la-net-tools-2.10";
    let sp = StorePath::parse_basename(b).unwrap();
    assert_eq!(sp.basename(), b);
    assert_eq!(sp.hash_str(), &b[..32]);
    assert_eq!(sp.name, &b[33..]);
    // a digit outside the alphabet (`e`)
    assert!(StorePath::parse_basename("00bgd045z0d4icpbc2yyz4gx48ak44le-x").is_err());
    // no `-` after the 32 digits
    assert!(StorePath::parse_basename("00bgd045z0d4icpbc2yyz4gx48ak44la_x").is_err());
    // too short
    assert!(StorePath::parse_basename("00bgd045z0d4icpbc2yyz4gx48ak44la-").is_err());
}
