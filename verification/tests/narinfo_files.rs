use niphas::error::NiphasError;
use niphas::narinfo::{Compression, NarInfo};

const SAMPLE_NARINFO: &str = "\
StorePath: /nix/store/00bgd045z0d4icpbc2yyz4gx48ak44la-net-tools-2.10
URL: nar/0i6vphc9vnrfamvnwwb07rml60k3piqf8samh4pzlzcslwdg19bv.nar.xz
Compression: xz
FileHash: sha256:0i6vphc9vnrfamvnwwb07rml60k3piqf8samh4pzlzcslwdg19bv
FileSize: 78656
NarHash: sha256:18q15y2rlpyar84fl0yh27c5b7n8xqsa7n7a7hc7183md2v9k73s
NarSize: 204840
References: 00bgd045z0d4icpbc2yyz4gx48ak44la-net-tools-2.10 3n58xw4373jp0ljirf06d8077j15pc4j-glibc-2.37-8
Sig: cache.nixos.org-1:tPtJYPW0S7siMoEqP85L2GMl44GVDBR2JFGBkUAjS+iCT1SQmyxs3JmfrvfNS5FCr7VIY+PF1sC+hJ3BL0lVDg==";

#[test]
fn test_parse_narinfo() {
    let info = NarInfo::parse(SAMPLE_NARINFO).unwrap();
    assert_eq!(info.store_path.name, "net-tools-2.10");
    assert_eq!(
        info.url,
        "nar/0i6vphc9vnrfamvnwwb07rml60k3piqf8samh4pzlzcslwdg19bv.nar.xz"
    );
    assert_eq!(info.compression, Compression::Xz);
    assert_eq!(info.file_size, 78656);
    assert_eq!(info.nar_size, 204840);
    assert_eq!(info.references.len(), 2);
    assert_eq!(info.signatures.len(), 1);
    assert_eq!(info.signatures[0].key_name, "cache.nixos.org-1");
}

#[test]
fn test_missing_required_field() {
    let input = "StorePath: /nix/store/00bgd045z0d4icpbc2yyz4gx48ak44la-net-tools-2.10\n";
    assert!(NarInfo::parse(input).is_err());
}

#[test]
fn test_fingerprint() {
    let info = NarInfo::parse(SAMPLE_NARINFO).unwrap();
    let fp = info.fingerprint();
    assert!(fp.starts_with("1;/nix/store/"));
    assert!(fp.contains(";sha256:"));
    assert!(fp.contains(";204840;"));
}

// -- own tests --

#[test]
fn fingerprint_exact_text_with_sorted_references() {
    let input = "\
StorePath: /nix/store/00bgd045z0d4icpbc2yyz4gx48ak44la-net-tools-2.10
URL: nar/x.nar
Compression: none
FileHash: sha256:0i6vphc9vnrfamvnwwb07rml60k3piqf8samh4pzlzcslwdg19bv
FileSize: 1
NarHash: sha256:18q15y2rlpyar84fl0yh27c5b7n8xqsa7n7a7hc7183md2v9k73s
NarSize: 7
References: 3n58xw4373jp0ljirf06d8077j15pc4j-glibc-2.37-8 00bgd045z0d4icpbc2yyz4gx48ak44la-net-tools-2.10
";
    let info = NarInfo::parse(input).unwrap();
    assert_eq!(info.compression, Compression::Uncompressed);
    assert_eq!(
        info.fingerprint(),
        "1;/nix/store/00bgd045z0d4icpbc2yyz4gx48ak44la-net-tools-2.10;\
sha256:18q15y2rlpyar84fl0yh27c5b7n8xqsa7n7a7hc7183md2v9k73s;7;\
/nix/store/00bgd045z0d4icpbc2yyz4gx48ak44la-net-tools-2.10,\
/nix/store/3n58xw4373jp0ljirf06d8077j15pc4j-glibc-2.37-8"
    );
}

#[test]
fn narinfo_missing_field_message() {
    let input = "StorePath: /nix/store/00bgd045z0d4icpbc2yyz4gx48ak44la-net-tools-2.10\n";
    match NarInfo::parse(input) {
        Err(NiphasError::NarInfoParse(m)) => assert_eq!(m, "missing URL"),
        other => panic!("unexpected {:?}", other),
    }
}

#[test]
fn narinfo_defaults_and_unknown_keys() {
    let input = "\
StorePath: /nix/store/00bgd045z0d4icpbc2yyz4gx48ak44la-net-tools-2.10
URL: nar/x.nar
FileHash: sha256:0i6vphc9vnrfamvnwwb07rml60k3piqf8samh4pzlzcslwdg19bv
NarHash: sha256:18q15y2rlpyar84fl0yh27c5b7n8xqsa7n7a7hc7183md2v9k73s
NarSize: 7
System: x86_64-linux
";
    match NarInfo::parse(input) {
        Err(NiphasError::NarInfoParse(m)) => assert_eq!(m, "missing Compression"),
        other => panic!("unexpected {:?}", other),
    }
}

#[test]
fn compression_names() {
    assert_eq!(Compression::parse("xz").unwrap(), Compression::Xz);
    assert_eq!(Compression::parse("none").unwrap(), Compression::Uncompressed);
    assert_eq!(Compression::parse("zstd").unwrap(), Compression::Zstd);
    assert!(Compression::parse("gzip").is_err());
    assert_eq!(Compression::Bzip2.to_string(), "bzip2");
    assert_eq!(Compression::Uncompressed.to_string(), "none");
}

#[test]
fn narinfo_size_error_message() {
    let input = "FileSize: 12x\n";
    assert_eq!(
        NarInfo::parse(input).unwrap_err(),
        NiphasError::NarInfoParse("invalid FileSize: invalid digit found in string".into())
    );
    assert_eq!(
        NarInfo::parse("no separator here\n").unwrap_err(),
        NiphasError::NarInfoParse("malformed line: 'no separator here'".into())
    );
}

#[test]
fn narinfo_field_error_messages() {
    assert_eq!(
        NarInfo::parse("StorePath: /nix/foo\n").unwrap_err(),
        NiphasError::InvalidStorePath("missing /nix/store/ prefix: '/nix/foo'".into())
    );
    assert_eq!(
        NarInfo::parse("Compression: gzip\n").unwrap_err(),
        NiphasError::NarInfoParse("unknown compression: 'gzip'".into())
    );
    assert_eq!(
        NarInfo::parse("NarHash: blake3:abc\n").unwrap_err(),
        NiphasError::NarInfoParse("unknown hash algorithm: 'blake3'".into())
    );
    assert_eq!(
        NarInfo::parse("References: short\n").unwrap_err(),
        NiphasError::InvalidStorePath("store path basename too short: 'short'".into())
    );
}

#[test]
fn compression_names_read_back() {
    for c in [
        Compression::Uncompressed,
        Compression::Xz,
        Compression::Bzip2,
        Compression::Zstd,
        Compression::Br,
        Compression::Lzip,
        Compression::Lz4,
    ] {
        assert_eq!(Compression::parse(&c.to_string()).unwrap(), c);
    }
}

#[test]
fn narinfo_last_line_wins_and_signatures_accumulate() {
    let text = format!(
        "{SAMPLE_NARINFO}\nURL: nar/second.nar.xz\nDeriver: a.drv\nDeriver: b.drv\n\
Sig: other-1:tPtJYPW0S7siMoEqP85L2GMl44GVDBR2JFGBkUAjS+iCT1SQmyxs3JmfrvfNS5FCr7VIY+PF1sC+hJ3BL0lVDg=="
    );
    let info = NarInfo::parse(&text).unwrap();
    assert_eq!(info.url, "nar/second.nar.xz");
    assert_eq!(info.deriver, Some("b.drv".to_string()));
    let names: Vec<&str> = info.signatures.iter().map(|s| s.key_name.as_str()).collect();
    assert_eq!(names, vec!["cache.nixos.org-1", "other-1"]);
    assert!(NarInfo::parse(&format!("{SAMPLE_NARINFO}\nno separator here")).is_err());
}
