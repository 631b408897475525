use std::collections::HashMap;

use niphas::closure::{ClosureResolver, ResolvedClosure};
use niphas::error::NiphasError;
use niphas::narinfo::NarInfo;
use niphas::store_path::StorePath;

// Real Nix store path hashes (32-char Nix-base32) for test fixtures.
const HASH_A: &str = "00bgd045z0d4icpbc2yyz4gx48ak44la";
const HASH_B: &str = "3n58xw4373jp0ljirf06d8077j15pc4j";
const HASH_C: &str = "aw2fw9ag10wr9pf0qk4nk5sxi0q0bn56";
const HASH_D: &str = "b6vsz4mzc9ql0a0rdiw5mmfqajj39lqg";
const DIGEST: &str = "0mdqa9w1p6cmli6976v4wi0sw9r4p5prkj7lzfd1877wk11c9c73";

fn sp(hash: &str, name: &str) -> String {
    format!("/nix/store/{hash}-{name}")
}

fn basename(hash: &str, name: &str) -> String {
    format!("{hash}-{name}")
}

fn narinfo(path: &str, refs: &[String], nar_size: u64, file_size: u64) -> NarInfo {
    let mut text = format!(
        "StorePath: {path}\nURL: nar/x.nar\nCompression: none\nFileHash: sha256:{DIGEST}\n\
FileSize: {file_size}\nNarHash: sha256:{DIGEST}\nNarSize: {nar_size}\n"
    );
    if !refs.is_empty() {
        text.push_str(&format!("References: {}\n", refs.join(" ")));
    }
    NarInfo::parse(&text).unwrap()
}

/// An in-memory binary cache, by store path hash.
#[derive(Default)]
struct FakeCache {
    narinfos: HashMap<String, NarInfo>,
}

impl FakeCache {
    fn add(&mut self, n: NarInfo) {
        self.narinfos.insert(n.store_path.hash_str(), n);
    }

    fn fetch(&self, sp: &StorePath) -> Result<NarInfo, NiphasError> {
        self.narinfos
            .get(&sp.hash_str())
            .cloned()
            .ok_or_else(|| NiphasError::StorePathNotCached(sp.to_string()))
    }
}

fn resolve(cache: &FakeCache, root: &StorePath, concurrency: usize) -> Result<ResolvedClosure, NiphasError> {
    let mut r = ClosureResolver::new(root, concurrency);
    while !r.is_done() {
        for p in r.next_batch() {
            match cache.fetch(&p) {
                Ok(n) => r.on_fetched(&p, n),
                Err(e) => return Err(r.failure(&p, &e.to_string())),
            }
        }
    }
    Ok(r.finish())
}

#[test]
fn test_resolve_closure_single_path_no_refs() {
    let mut client = FakeCache::default();
    let path = sp(HASH_A, "hello-2.12.1");
    client.add(narinfo(&path, &[], 5000, 1000));

    let root = StorePath::parse(&path).unwrap();
    let result = resolve(&client, &root, 4).unwrap();

    assert_eq!(result.paths.len(), 1);
    assert_eq!(result.paths[0], path);
    assert_eq!(result.nar_size(), 5000);
}

#[test]
fn test_resolve_closure_transitive() {
    // A -> B -> C
    let mut client = FakeCache::default();
    let path_a = sp(HASH_A, "hello-2.12.1");
    let path_b = sp(HASH_B, "glibc-2.37-8");
    let path_c = sp(HASH_C, "gcc-12.3.0-lib");
    client.add(narinfo(&path_a, &[basename(HASH_B, "glibc-2.37-8")], 2000, 1000));
    client.add(narinfo(&path_b, &[basename(HASH_C, "gcc-12.3.0-lib")], 2000, 1000));
    client.add(narinfo(&path_c, &[], 2000, 1000));

    let root = StorePath::parse(&path_a).unwrap();
    let result = resolve(&client, &root, 4).unwrap();

    assert_eq!(result.paths.len(), 3);
    assert!(result.paths.contains(&path_a));
    assert!(result.paths.contains(&path_b));
    assert!(result.paths.contains(&path_c));
}

#[test]
fn test_resolve_closure_diamond_dedup() {
    // A -> B, A -> C, B -> D, C -> D
    let mut client = FakeCache::default();
    let path_a = sp(HASH_A, "hello-2.12.1");
    let path_b = sp(HASH_B, "glibc-2.37-8");
    let path_c = sp(HASH_C, "gcc-12.3.0-lib");
    let path_d = sp(HASH_D, "linux-headers-6.5");
    client.add(narinfo(
        &path_a,
        &[basename(HASH_B, "glibc-2.37-8"), basename(HASH_C, "gcc-12.3.0-lib")],
        2000,
        1000,
    ));
    client.add(narinfo(&path_b, &[basename(HASH_D, "linux-headers-6.5")], 2000, 1000));
    client.add(narinfo(&path_c, &[basename(HASH_D, "linux-headers-6.5")], 2000, 1000));
    client.add(narinfo(&path_d, &[], 2000, 1000));

    let root = StorePath::parse(&path_a).unwrap();
    let result = resolve(&client, &root, 4).unwrap();

    // D should appear exactly once despite being referenced by both B and C.
    assert_eq!(result.paths.len(), 4);
    let d_count = result.paths.iter().filter(|p| **p == path_d).count();
    assert_eq!(d_count, 1, "D should be deduplicated");
}

#[test]
fn test_resolve_closure_missing_ref_errors() {
    let mut client = FakeCache::default();
    let path_a = sp(HASH_A, "hello-2.12.1");
    // A references B, but B is not in the cache.
    client.add(narinfo(&path_a, &[basename(HASH_B, "glibc-2.37-8")], 2000, 1000));

    let root = StorePath::parse(&path_a).unwrap();
    let result = resolve(&client, &root, 4);

    assert!(result.is_err());
    let err = result.unwrap_err().to_string();
    assert!(err.contains("failed to resolve"), "unexpected error: {err}");
}

#[test]
fn test_closure_helpers() {
    let mut client = FakeCache::default();
    let path_a = sp(HASH_A, "hello-2.12.1");
    let path_b = sp(HASH_B, "glibc-2.37-8");
    client.add(narinfo(&path_a, &[basename(HASH_B, "glibc-2.37-8")], 1000, 500));
    client.add(narinfo(&path_b, &[], 3000, 1500));

    let root = StorePath::parse(&path_a).unwrap();
    let result = resolve(&client, &root, 4).unwrap();

    assert_eq!(result.paths().len(), 2);
    assert_eq!(result.nar_size(), 4000);
    assert_eq!(result.file_size(), 2000);
}

#[test]
fn test_resolve_closure_self_reference() {
    // A references itself (common for glibc).
    let mut client = FakeCache::default();
    let path_a = sp(HASH_A, "glibc-2.37-8");
    client.add(narinfo(&path_a, &[basename(HASH_A, "glibc-2.37-8")], 2000, 1000));

    let root = StorePath::parse(&path_a).unwrap();
    let result = resolve(&client, &root, 4).unwrap();

    assert_eq!(result.paths.len(), 1);
}

// -- own tests --

#[test]
fn closure_root_first_and_breadth_first_with_batch_of_one() {
    let mut client = FakeCache::default();
    let path_a = sp(HASH_A, "a");
    let path_b = sp(HASH_B, "b");
    let path_c = sp(HASH_C, "c");
    client.add(narinfo(&path_a, &[basename(HASH_B, "b"), basename(HASH_C, "c")], 1, 1));
    client.add(narinfo(&path_b, &[basename(HASH_A, "a")], 1, 1));
    client.add(narinfo(&path_c, &[], 1, 1));
    let root = StorePath::parse(&path_a).unwrap();
    let result = resolve(&client, &root, 1).unwrap();
    assert_eq!(result.paths, vec![path_a, path_b, path_c]);
    assert_eq!(result.narinfos.len(), 3);
}

#[test]
fn closure_errors() {
    let root = StorePath::parse(&sp(HASH_A, "a")).unwrap();
    let r = ClosureResolver::new(&root, 2);
    assert_eq!(
        r.timeout_error(60),
        NiphasError::Timeout("closure resolution timed out after 60s".to_string())
    );
    assert_eq!(
        r.failure(&root, "boom"),
        NiphasError::ClosureResolution(format!("failed to resolve {}: boom", sp(HASH_A, "a")))
    );
}

#[test]
fn closure_paths_are_topologically_sorted() {
    // A -> [B, C], C -> [B]: C must come before B, which it references.
    let mut client = FakeCache::default();
    let path_a = sp(HASH_A, "hello-2.12.1");
    let path_b = sp(HASH_B, "glibc-2.37-8");
    let path_c = sp(HASH_C, "gcc-12.3.0-lib");
    client.add(narinfo(
        &path_a,
        &[basename(HASH_B, "glibc-2.37-8"), basename(HASH_C, "gcc-12.3.0-lib")],
        1,
        1,
    ));
    client.add(narinfo(&path_b, &[], 1, 1));
    client.add(narinfo(&path_c, &[basename(HASH_B, "glibc-2.37-8")], 1, 1));

    let root = StorePath::parse(&path_a).unwrap();
    let result = resolve(&client, &root, 4).unwrap();
    assert_eq!(result.paths, vec![path_a.clone(), path_c.clone(), path_b.clone()]);
    assert_eq!(result.narinfos.len(), 3);
    for p in [&path_a, &path_b, &path_c] {
        assert_eq!(&result.narinfo_of(p).unwrap().store_path.to_string(), p);
    }
    assert!(result.narinfo_of(&sp(HASH_A, "other")).is_none());
}

#[test]
fn closure_with_a_cycle_keeps_the_root_first() {
    // A -> B, B -> A: the root comes first.
    let mut client = FakeCache::default();
    let path_a = sp(HASH_A, "hello-2.12.1");
    let path_b = sp(HASH_B, "glibc-2.37-8");
    client.add(narinfo(&path_a, &[basename(HASH_B, "glibc-2.37-8")], 1, 1));
    client.add(narinfo(&path_b, &[basename(HASH_A, "hello-2.12.1")], 1, 1));
    let root = StorePath::parse(&path_a).unwrap();
    let result = resolve(&client, &root, 1).unwrap();
    assert_eq!(result.paths, vec![path_a, path_b]);
}
