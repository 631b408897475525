use niphas::error::NiphasError;
use niphas::extract::{extraction_plan, FsOp};
use niphas::hash::{sha256_hash, HashAlgo};
use niphas::nar::{validate_entry_name, NarNode, NarReader};

/// Helper: encode a NAR string token (length-prefixed + padded).
fn nar_str(s: &str) -> Vec<u8> {
    let mut out = Vec::new();
    out.extend_from_slice(&(s.len() as u64).to_le_bytes());
    out.extend_from_slice(s.as_bytes());
    let pad = (8 - (s.len() % 8)) % 8;
    out.extend(std::iter::repeat_n(0u8, pad));
    out
}

/// Build a minimal NAR for a regular file.
fn build_regular_nar(contents: &[u8], executable: bool) -> Vec<u8> {
    let mut nar = Vec::new();
    nar.extend(nar_str("nix-archive-1"));
    nar.extend(nar_str("("));
    nar.extend(nar_str("type"));
    nar.extend(nar_str("regular"));
    if executable {
        nar.extend(nar_str("executable"));
        nar.extend(nar_str(""));
    }
    nar.extend(nar_str("contents"));
    // contents is encoded like a string
    nar.extend(&(contents.len() as u64).to_le_bytes());
    nar.extend(contents);
    let pad = (8 - (contents.len() % 8)) % 8;
    nar.extend(std::iter::repeat_n(0u8, pad));
    nar.extend(nar_str(")"));
    nar
}

#[test]
fn test_parse_regular_file() {
    let nar = build_regular_nar(b"hello world", false);
    let reader = NarReader::new(nar.clone());
    let (node, hash) = reader.parse().unwrap();

    match node {
        NarNode::Regular {
            executable,
            contents,
        } => {
            assert!(!executable);
            assert_eq!(contents, b"hello world");
        }
        _ => panic!("expected regular file"),
    }

    // Hash should be valid SHA-256
    assert_eq!(hash.algo, HashAlgo::Sha256);
    assert_eq!(hash.digest.len(), 32);
}

#[test]
fn test_parse_executable_file() {
    let nar = build_regular_nar(b"#!/bin/sh\necho hi", true);
    let reader = NarReader::new(nar.clone());
    let (node, _) = reader.parse().unwrap();

    match node {
        NarNode::Regular { executable, .. } => {
            assert!(executable);
        }
        _ => panic!("expected regular file"),
    }
}

#[test]
fn test_parse_symlink() {
    let mut nar = Vec::new();
    nar.extend(nar_str("nix-archive-1"));
    nar.extend(nar_str("("));
    nar.extend(nar_str("type"));
    nar.extend(nar_str("symlink"));
    nar.extend(nar_str("target"));
    nar.extend(nar_str("/nix/store/abc-glibc/lib/libc.so.6"));
    nar.extend(nar_str(")"));

    let reader = NarReader::new(nar.clone());
    let (node, _) = reader.parse().unwrap();

    match node {
        NarNode::Symlink { target } => {
            assert_eq!(target, "/nix/store/abc-glibc/lib/libc.so.6");
        }
        _ => panic!("expected symlink"),
    }
}

/// Build a NAR for a directory with the given entries.
/// Each entry is (name, nar_node_bytes) where nar_node_bytes is
/// the inner serialization of a node (including "(" ... ")").
fn build_directory_nar(entries: &[(&str, Vec<u8>)]) -> Vec<u8> {
    let mut nar = Vec::new();
    nar.extend(nar_str("nix-archive-1"));
    nar.extend(nar_str("("));
    nar.extend(nar_str("type"));
    nar.extend(nar_str("directory"));
    for (name, node_bytes) in entries {
        nar.extend(nar_str("entry"));
        nar.extend(nar_str("("));
        nar.extend(nar_str("name"));
        nar.extend(nar_str(name));
        nar.extend(nar_str("node"));
        nar.extend(node_bytes);
        nar.extend(nar_str(")"));
    }
    nar.extend(nar_str(")"));
    nar
}

/// Build the inner NAR bytes for a regular file node (including parens).
fn build_regular_node(contents: &[u8]) -> Vec<u8> {
    let mut node = Vec::new();
    node.extend(nar_str("("));
    node.extend(nar_str("type"));
    node.extend(nar_str("regular"));
    node.extend(nar_str("contents"));
    node.extend(&(contents.len() as u64).to_le_bytes());
    node.extend(contents);
    let pad = (8 - (contents.len() % 8)) % 8;
    node.extend(std::iter::repeat_n(0u8, pad));
    node.extend(nar_str(")"));
    node
}

#[test]
fn test_parse_empty_directory() {
    let nar = build_directory_nar(&[]);
    let reader = NarReader::new(nar.clone());
    let (node, hash) = reader.parse().unwrap();

    match node {
        NarNode::Directory { entries } => {
            assert!(entries.is_empty());
        }
        _ => panic!("expected directory"),
    }
    assert_eq!(hash.algo, HashAlgo::Sha256);
    assert_eq!(hash.digest.len(), 32);
}

#[test]
fn test_parse_directory_with_files() {
    let nar = build_directory_nar(&[
        ("hello.txt", build_regular_node(b"hello")),
        ("world.txt", build_regular_node(b"world")),
    ]);
    let reader = NarReader::new(nar.clone());
    let (node, _) = reader.parse().unwrap();

    match node {
        NarNode::Directory { entries } => {
            assert_eq!(entries.len(), 2);
            assert_eq!(entries[0].name, "hello.txt");
            assert_eq!(entries[1].name, "world.txt");
            match &entries[0].node {
                NarNode::Regular { contents, .. } => assert_eq!(contents, b"hello"),
                _ => panic!("expected regular file"),
            }
        }
        _ => panic!("expected directory"),
    }
}

#[test]
fn test_parse_nested_directory() {
    // Build: root/subdir/file.txt
    let inner_dir = {
        let file_node = build_regular_node(b"nested content");
        let mut d = Vec::new();
        d.extend(nar_str("("));
        d.extend(nar_str("type"));
        d.extend(nar_str("directory"));
        d.extend(nar_str("entry"));
        d.extend(nar_str("("));
        d.extend(nar_str("name"));
        d.extend(nar_str("file.txt"));
        d.extend(nar_str("node"));
        d.extend(&file_node);
        d.extend(nar_str(")"));
        d.extend(nar_str(")"));
        d
    };

    let nar = build_directory_nar(&[("subdir", inner_dir)]);
    let reader = NarReader::new(nar.clone());
    let (node, _) = reader.parse().unwrap();

    match node {
        NarNode::Directory { entries } => {
            assert_eq!(entries.len(), 1);
            assert_eq!(entries[0].name, "subdir");
            match &entries[0].node {
                NarNode::Directory { entries: sub } => {
                    assert_eq!(sub.len(), 1);
                    assert_eq!(sub[0].name, "file.txt");
                }
                _ => panic!("expected nested directory"),
            }
        }
        _ => panic!("expected directory"),
    }
}

#[test]
fn test_validate_entry_name() {
    assert!(validate_entry_name("hello").is_ok());
    assert!(validate_entry_name("").is_err());
    assert!(validate_entry_name(".").is_err());
    assert!(validate_entry_name("..").is_err());
    assert!(validate_entry_name("foo/bar").is_err());
    assert!(validate_entry_name("foo\0bar").is_err());
}

// -- own tests --

#[test]
fn nar_hash_is_sha256_of_the_archive() {
    let nar = build_regular_nar(b"abc", true);
    let (_, hash) = NarReader::new(nar.clone()).parse().unwrap();
    assert_eq!(hash, sha256_hash(&nar));
}

#[test]
fn nar_rejects_bad_magic_and_truncation() {
    let mut nar = nar_str("nix-archive-2");
    nar.extend(nar_str("("));
    assert!(matches!(NarReader::new(nar).parse(), Err(NiphasError::NarParse(_))));
    let full = build_regular_nar(b"hello world", false);
    let cut = full[..full.len() - 8].to_vec();
    assert!(matches!(NarReader::new(cut).parse(), Err(NiphasError::NarParse(_))));
    assert_eq!(
        NarReader::new(Vec::new()).parse().unwrap_err(),
        NiphasError::NarParse("unexpected EOF: early eof".into())
    );
}

#[test]
fn nar_rejects_unsorted_and_bad_entry_names() {
    let unsorted = build_directory_nar(&[
        ("b", build_regular_node(b"1")),
        ("a", build_regular_node(b"2")),
    ]);
    assert!(NarReader::new(unsorted).parse().is_err());
    let dup = build_directory_nar(&[
        ("a", build_regular_node(b"1")),
        ("a", build_regular_node(b"2")),
    ]);
    assert!(NarReader::new(dup).parse().is_err());
    let dotdot = build_directory_nar(&[("..", build_regular_node(b"1"))]);
    assert!(NarReader::new(dotdot).parse().is_err());
}

#[test]
fn nar_depth_limit() {
    let inner = build_directory_nar(&[("f", build_regular_node(b"x"))]);
    // one directory holding a file parses with depth 1 but not with depth 0
    assert!(NarReader::new(inner.clone()).with_max_depth(1).parse().is_ok());
    assert_eq!(
        NarReader::new(inner).with_max_depth(0).parse().unwrap_err(),
        NiphasError::NarParse("directory nesting depth exceeds limit (0)".into())
    );
}

#[test]
fn nar_bytes_read_starts_at_zero() {
    let nar = build_regular_nar(b"x", false);
    assert_eq!(NarReader::new(nar).bytes_read(), 0);
}

#[test]
fn extraction_plan_of_a_tree() {
    let nar = build_directory_nar(&[
        ("bin", build_regular_node(b"#!")),
        ("lib", build_regular_node(b"so")),
    ]);
    let (node, _) = NarReader::new(nar).parse().unwrap();
    let plan = extraction_plan(&node, "/cache/tmp");
    assert_eq!(plan.len(), 3);
    match &plan[0] {
        FsOp::CreateDir { path } => assert_eq!(path, "/cache/tmp"),
        other => panic!("unexpected {:?}", other),
    }
    match &plan[1] {
        FsOp::WriteFile { path, contents, mode } => {
            assert_eq!(path, "/cache/tmp/bin");
            assert_eq!(contents, b"#!");
            assert_eq!(*mode, 0o444);
        }
        other => panic!("unexpected {:?}", other),
    }
    match &plan[2] {
        FsOp::WriteFile { path, .. } => assert_eq!(path, "/cache/tmp/lib"),
        other => panic!("unexpected {:?}", other),
    }
}

#[test]
fn extraction_plan_executable_and_symlink() {
    let (node, _) = NarReader::new(build_regular_nar(b"run", true)).parse().unwrap();
    let plan = extraction_plan(&node, "out/");
    match &plan[0] {
        FsOp::WriteFile { path, mode, .. } => {
            assert_eq!(path, "out/");
            assert_eq!(*mode, 0o555);
        }
        other => panic!("unexpected {:?}", other),
    }
    let link = NarNode::Symlink { target: "../x".to_string() };
    let plan = extraction_plan(&link, "/a/b");
    match &plan[0] {
        FsOp::Symlink { target, path } => {
            assert_eq!(target, "../x");
            assert_eq!(path, "/a/b");
        }
        other => panic!("unexpected {:?}", other),
    }
}

#[test]
fn nar_rejects_invalid_utf8_token() {
    let mut nar = nar_str("nix-archive-1");
    nar.extend(nar_str("("));
    nar.extend(nar_str("type"));
    nar.extend(&1u64.to_le_bytes());
    nar.extend([0xffu8, 0, 0, 0, 0, 0, 0, 0]);
    match NarReader::new(nar).parse() {
        Err(NiphasError::NarParse(m)) => assert!(m.starts_with("invalid UTF-8 string: "), "{m}"),
        other => panic!("unexpected: {other:?}"),
    }
}

fn nar_error_of(nar: Vec<u8>) -> String {
    match NarReader::new(nar).parse() {
        Err(NiphasError::NarParse(m)) => m,
        other => panic!("unexpected: {other:?}"),
    }
}

fn tokens(ts: &[&str]) -> Vec<u8> {
    ts.iter().flat_map(|t| nar_str(t)).collect()
}

#[test]
fn nar_error_messages() {
    assert_eq!(
        nar_error_of(tokens(&["nix-archive-2"])),
        "expected 'nix-archive-1', got 'nix-archive-2'"
    );
    assert_eq!(
        nar_error_of(tokens(&["nix-archive-1", "(", "type", "fifo"])),
        "unknown node type: 'fifo'"
    );
    assert_eq!(
        nar_error_of(tokens(&["nix-archive-1", "(", "type", "regular", "size"])),
        "expected 'executable' or 'contents', got 'size'"
    );
    assert_eq!(
        nar_error_of(tokens(&["nix-archive-1", "(", "type", "directory", "file"])),
        "expected 'entry' or ')', got 'file'"
    );
    let unsorted = build_directory_nar(&[
        ("b", build_regular_node(b"1")),
        ("a", build_regular_node(b"2")),
    ]);
    assert_eq!(nar_error_of(unsorted), "directory entries not sorted: 'b' followed by 'a'");
    let dotdot = build_directory_nar(&[("..", build_regular_node(b"1"))]);
    assert_eq!(nar_error_of(dotdot), "invalid entry name: '..'");

    let mut big = nar_str("nix-archive-1");
    big.extend(&(200u64 * 1024 * 1024).to_le_bytes());
    assert_eq!(nar_error_of(big), "string too large: 209715200 bytes");

    let mut padded = nar_str("nix-archive-1");
    padded.extend(&1u64.to_le_bytes());
    padded.extend([b'(', 1, 0, 0, 0, 0, 0, 0]);
    assert_eq!(nar_error_of(padded), "non-zero padding bytes");
}
