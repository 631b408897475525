use niphas::cache_client::{
    body_read_error, cache_url, fetch_exhausted, nar_fetch_error, narinfo_fetch_error,
    narinfo_file, sort_by_priority, FetchFailure,
};
use niphas::config::CacheConfig;
use niphas::csi::{
    check_nar, check_volume_request, decoder_for, decompress_nar, is_temp_entry, node_step,
    plan_publish, publish_context, split_closure_paths, temp_dir_name, unimplemented,
    unpublish_start, verify_file_hash, CsiCode, CsiError, Decoder, IdentityService, NarCache,
    NodeAction, NodeEvent, PublishPlan, DRIVER_NAME,
};
use niphas::error::NiphasError;
use niphas::hash::{sha256_hash, HashAlgo, NixHash};
use niphas::mount::{mountinfo_has, MS_BIND, READONLY_REMOUNT_FLAGS};
use niphas::nar::NarNode;
use niphas::narinfo::{Compression, NarInfo};

#[test]
fn test_path_for_with_prefix() {
    let cache = NarCache::new("/cache");
    assert_eq!(
        cache.path_for("/nix/store/abc123-hello"),
        "/cache/abc123-hello"
    );
}

#[test]
fn test_path_for_without_prefix() {
    let cache = NarCache::new("/cache");
    assert_eq!(cache.path_for("abc123-hello"), "/cache/abc123-hello");
}

// -- own tests --

#[test]
fn path_for_with_trailing_slash_and_absolute_basename() {
    let cache = NarCache::new("/cache/");
    assert_eq!(cache.path_for("/nix/store/x-y"), "/cache/x-y");
    assert_eq!(cache.path_for("/etc/passwd"), "/etc/passwd");
    assert_eq!(NarCache::basename("/nix/store/abc"), "abc");
    assert_eq!(NarCache::basename("/nix/storeabc"), "/nix/storeabc");
}

#[test]
fn volume_request_checks() {
    let e = check_volume_request("", "/target").unwrap_err();
    assert_eq!(e.code, CsiCode::InvalidArgument);
    assert_eq!(e.message, "volume_id is required");
    let e = check_volume_request("vol-1", "").unwrap_err();
    assert_eq!(e.code, CsiCode::InvalidArgument);
    assert_eq!(e.message, "target_path is required");
    assert!(check_volume_request("vol-1", "/target").is_ok());
}

#[test]
fn publish_context_checks() {
    let e = publish_context(None, Some("abc")).unwrap_err();
    assert_eq!(e.code, CsiCode::InvalidArgument);
    assert_eq!(e.message, "volumeAttributes.storePath is required");
    let e = publish_context(Some("/nix/store/abc"), None).unwrap_err();
    assert_eq!(e.message, "volumeAttributes.closurePaths is required");
    let e = publish_context(Some("/nix/store/abc"), Some(" , ,")).unwrap_err();
    assert_eq!(e.message, "closurePaths must contain at least one path");
    let paths = publish_context(Some("/nix/store/abc"), Some("abc")).unwrap();
    assert_eq!(paths, vec!["abc".to_string()]);
}

#[test]
fn closure_paths_are_split_trimmed_and_filtered() {
    assert_eq!(
        split_closure_paths(" a-1 ,b-2,, c-3 "),
        vec!["a-1".to_string(), "b-2".to_string(), "c-3".to_string()]
    );
    assert!(split_closure_paths("").is_empty());
    assert_eq!(split_closure_paths("x"), vec!["x".to_string()]);
}

#[test]
fn publish_plans() {
    let cache = NarCache::new("/tmp/test-cache");
    assert!(matches!(
        plan_publish(true, None, None, &cache),
        Ok(PublishPlan::AlreadyMounted)
    ));
    match plan_publish(false, Some("/nix/store/abc-x"), Some("abc-x,def-y"), &cache) {
        Ok(PublishPlan::Mount { closure_paths, source }) => {
            assert_eq!(closure_paths, vec!["abc-x".to_string(), "def-y".to_string()]);
            assert_eq!(source, "/tmp/test-cache/abc-x");
        }
        other => panic!("unexpected {:?}", other),
    }
    let e = plan_publish(false, None, Some("abc"), &cache).unwrap_err();
    assert_eq!(e.code, CsiCode::InvalidArgument);
}

#[test]
fn csi_errors() {
    let e = niphas::csi::fetch_failed("boom");
    assert_eq!(e.code, CsiCode::Unavailable);
    assert_eq!(e.message, "failed to fetch closure: boom");
    let e = niphas::csi::bind_failed("eperm");
    assert_eq!(e.code, CsiCode::Internal);
    assert_eq!(e.message, "bind mount failed: eperm");
    let e = niphas::csi::setup_failed("x");
    assert_eq!(e.message, "failed to create target dir: x");
    let e = niphas::csi::unmount_failed("y");
    assert_eq!(e.message, "unmount failed: y");
    let e = unimplemented("NodeStageVolume not supported (ephemeral volumes)");
    assert_eq!(e.code, CsiCode::Unimplemented);
    assert_eq!(DRIVER_NAME, "niphas.io.csi");
}

#[test]
fn temp_entries() {
    assert_eq!(temp_dir_name("abc-x", 42), ".tmp-abc-x-42");
    assert!(is_temp_entry(".tmp-abc-x-42"));
    assert!(!is_temp_entry("abc-x"));
    assert!(!is_temp_entry(".tmp"));
}

#[test]
fn decoders() {
    assert_eq!(decoder_for(Compression::Uncompressed).unwrap(), Decoder::Identity);
    assert_eq!(decoder_for(Compression::Zstd).unwrap(), Decoder::Zstd);
    assert_eq!(decoder_for(Compression::Xz).unwrap(), Decoder::Xz);
    assert_eq!(decoder_for(Compression::Bzip2).unwrap(), Decoder::Bzip2);
    match decoder_for(Compression::Lz4) {
        Err(NiphasError::Cache(m)) => assert_eq!(m, "unsupported compression: lz4"),
        other => panic!("unexpected {:?}", other),
    }
}

fn narinfo_with_file_hash(file_hash: NixHash) -> NarInfo {
    let text = format!(
        "StorePath: /nix/store/00bgd045z0d4icpbc2yyz4gx48ak44la-x\nURL: nar/a.nar\n\
Compression: none\nFileHash: {}\nFileSize: 3\nNarHash: {}\nNarSize: 3\n",
        file_hash.to_string(),
        file_hash.to_string()
    );
    NarInfo::parse(&text).unwrap()
}

#[test]
fn file_hash_check() {
    let info = narinfo_with_file_hash(sha256_hash(b"abc"));
    assert!(verify_file_hash(&info, b"abc").is_ok());
    match verify_file_hash(&info, b"abd") {
        Err(NiphasError::HashMismatch { expected, actual }) => {
            assert_eq!(expected, sha256_hash(b"abc").to_string());
            assert_eq!(actual, sha256_hash(b"abd").to_string());
        }
        other => panic!("unexpected {:?}", other),
    }
    let other = NixHash { algo: HashAlgo::Sha512, digest: vec![0u8; 64] };
    let mut info = info;
    info.file_hash = other;
    assert!(verify_file_hash(&info, b"abc").is_err());
}

#[test]
fn mountinfo_lookup() {
    let table = "36 35 98:0 /mnt1 /mnt/a rw,noatime master:1 - ext3 /dev/root rw\n\
37 35 98:0 / /var/lib/kubelet/pods/x/volumes/v rw - ext4 /dev/sda rw\n";
    assert!(mountinfo_has(table, "/mnt/a"));
    assert!(mountinfo_has(table, "/var/lib/kubelet/pods/x/volumes/v"));
    assert!(!mountinfo_has(table, "/mnt"));
    assert!(!mountinfo_has(table, "/mnt1"));
    assert!(!mountinfo_has("", "/"));
    assert!(!mountinfo_has("a b c d\n", "d"));
    assert_eq!(MS_BIND, 4096);
    assert_eq!(READONLY_REMOUNT_FLAGS, 4096 | 32 | 1 | 2 | 4);
}

#[test]
fn cache_urls_and_fetch_errors() {
    assert_eq!(cache_url("https://cache.nixos.org//", "abc.narinfo"), "https://cache.nixos.org/abc.narinfo");
    assert_eq!(cache_url("https://c", "nar/x.nar"), "https://c/nar/x.nar");
    assert_eq!(narinfo_file("abc"), "abc.narinfo");
    assert_eq!(
        narinfo_fetch_error("/nix/store/a-b", "u", &FetchFailure::NotFound),
        NiphasError::StorePathNotCached("/nix/store/a-b".to_string())
    );
    assert_eq!(
        narinfo_fetch_error("t", "https://c/x", &FetchFailure::Status("500 Internal Server Error".into())),
        NiphasError::Cache("HTTP 500 Internal Server Error from https://c/x".to_string())
    );
    assert_eq!(
        narinfo_fetch_error("t", "u", &FetchFailure::RequestFailed("dns".into())),
        NiphasError::Cache("request failed: dns".to_string())
    );
    assert_eq!(
        nar_fetch_error("https://c/n", &FetchFailure::NotFound),
        NiphasError::Cache("HTTP 404 Not Found fetching NAR from https://c/n".to_string())
    );
    assert_eq!(
        nar_fetch_error("u", &FetchFailure::RequestFailed("reset".into())),
        NiphasError::Cache("NAR request failed: reset".to_string())
    );
    assert_eq!(
        fetch_exhausted(None),
        NiphasError::Cache("no binary caches configured".to_string())
    );
    assert_eq!(
        fetch_exhausted(Some(NiphasError::Http("x".into()))),
        NiphasError::Http("x".to_string())
    );
    assert_eq!(
        body_read_error("narinfo", "eof"),
        NiphasError::Cache("failed to read narinfo body: eof".to_string())
    );
}

#[test]
fn caches_sorted_by_priority_stably() {
    let c = |url: &str, priority: u32| CacheConfig { url: url.into(), public_key: None, priority };
    let sorted = sort_by_priority(vec![c("a", 40), c("b", 10), c("c", 40), c("d", 10), c("e", 0)]);
    let urls: Vec<&str> = sorted.iter().map(|x| x.url.as_str()).collect();
    assert_eq!(urls, vec!["e", "b", "d", "a", "c"]);
    assert!(sort_by_priority(vec![]).is_empty());
}

fn nar_token(s: &[u8]) -> Vec<u8> {
    let mut out = (s.len() as u64).to_le_bytes().to_vec();
    out.extend_from_slice(s);
    out.extend(std::iter::repeat_n(0u8, (8 - s.len() % 8) % 8));
    out
}

fn symlink_nar(target: &str) -> Vec<u8> {
    let mut nar = Vec::new();
    for t in ["nix-archive-1", "(", "type", "symlink", "target", target, ")"] {
        nar.extend(nar_token(t.as_bytes()));
    }
    nar
}

#[test]
fn nar_check_against_narinfo() {
    let nar = symlink_nar("/nix/store/abc-x/bin");
    let mut info = narinfo_with_file_hash(sha256_hash(b"abc"));
    info.nar_hash = sha256_hash(&nar);
    match check_nar(&info, nar.clone()) {
        Ok(NarNode::Symlink { target }) => assert_eq!(target, "/nix/store/abc-x/bin"),
        other => panic!("unexpected {:?}", other),
    }
    info.nar_hash = sha256_hash(b"something else");
    match check_nar(&info, nar.clone()) {
        Err(NiphasError::HashMismatch { expected, actual }) => {
            assert_eq!(expected, sha256_hash(b"something else").to_string());
            assert_eq!(actual, sha256_hash(&nar).to_string());
        }
        other => panic!("unexpected {:?}", other),
    }
    assert!(matches!(
        check_nar(&info, b"not a nar".to_vec()),
        Err(NiphasError::NarParse(_))
    ));
}

fn zstd_compress(data: &[u8]) -> Vec<u8> {
    let mut enc = Box::pin(async_compression::tokio::bufread::ZstdEncoder::new(data));
    let mut out = Vec::new();
    futures::executor::block_on(tokio::io::AsyncReadExt::read_to_end(&mut enc, &mut out)).unwrap();
    out
}

fn xz_compress(data: &[u8]) -> Vec<u8> {
    let mut enc = Box::pin(async_compression::tokio::bufread::XzEncoder::new(data));
    let mut out = Vec::new();
    futures::executor::block_on(tokio::io::AsyncReadExt::read_to_end(&mut enc, &mut out)).unwrap();
    out
}

#[test]
fn nar_decompression_by_compression() {
    let mut info = narinfo_with_file_hash(sha256_hash(b"abc"));
    let plain = b"hello nar bytes".to_vec();
    assert_eq!(decompress_nar(&info, &plain).unwrap(), plain);

    info.compression = Compression::Zstd;
    let packed = zstd_compress(&plain);
    assert_ne!(packed, plain);
    assert_eq!(decompress_nar(&info, &packed).unwrap(), plain);
    assert!(matches!(decompress_nar(&info, b"not zstd"), Err(NiphasError::Io(_))));

    info.compression = Compression::Xz;
    assert_eq!(decompress_nar(&info, &xz_compress(&plain)).unwrap(), plain);

    info.compression = Compression::Lz4;
    match decompress_nar(&info, &plain) {
        Err(NiphasError::Cache(m)) => assert_eq!(m, "unsupported compression: lz4"),
        other => panic!("unexpected {:?}", other),
    }
}

#[test]
fn test_get_plugin_info() {
    let info = IdentityService.get_plugin_info();
    assert_eq!(info.name, "niphas.io.csi");
    assert!(!info.vendor_version.is_empty());
}

#[test]
fn test_get_plugin_capabilities_empty() {
    assert!(IdentityService.get_plugin_capabilities().is_empty());
}

#[test]
fn test_probe_ready() {
    assert_eq!(IdentityService.probe(), Some(true));
}

#[test]
fn get_plugin_info_returns_name_and_version() {
    let info = IdentityService.get_plugin_info();
    assert_eq!(info.name, "niphas.io.csi");
    assert!(!info.vendor_version.is_empty());
}

#[test]
fn probe_returns_ready() {
    assert_eq!(IdentityService.probe(), Some(true));
}

/// A node whose mounts are a set of target paths and whose cache fetches always fail
/// (no `.narinfo` is served), driven through the library's publish and unpublish steps.
struct FakeNode {
    mounted: std::collections::HashSet<String>,
    mount_fail: bool,
}

impl FakeNode {
    fn new() -> Self {
        FakeNode { mounted: Default::default(), mount_fail: false }
    }

    fn with_mounted(target: &str) -> Self {
        let mut n = FakeNode::new();
        n.mounted.insert(target.to_string());
        n
    }

    fn run(&mut self, mut action: NodeAction, target: &str) -> Result<(), CsiError> {
        loop {
            action = match action {
                NodeAction::FetchClosure => {
                    node_step(NodeEvent::Fetched(Err("no narinfo for abc".to_string())))
                }
                NodeAction::SetupTarget => node_step(NodeEvent::TargetSetUp(Ok(()))),
                NodeAction::BindMount => {
                    if self.mount_fail {
                        node_step(NodeEvent::Mounted(Err("fake mount fail".to_string())))
                    } else {
                        self.mounted.insert(target.to_string());
                        node_step(NodeEvent::Mounted(Ok(())))
                    }
                }
                NodeAction::Unmount => {
                    self.mounted.remove(target);
                    node_step(NodeEvent::Unmounted(Ok(())))
                }
                NodeAction::CleanupAndReply(r) | NodeAction::Reply(r) => return r,
            };
        }
    }

    fn publish(
        &mut self,
        volume_id: &str,
        target: &str,
        store_path: Option<&str>,
        closure_paths: Option<&str>,
    ) -> Result<(), CsiError> {
        check_volume_request(volume_id, target)?;
        let cache = NarCache::new("/tmp/test-cache");
        match plan_publish(self.mounted.contains(target), store_path, closure_paths, &cache)? {
            PublishPlan::AlreadyMounted => Ok(()),
            PublishPlan::Mount { .. } => self.run(NodeAction::FetchClosure, target),
        }
    }

    fn unpublish(&mut self, volume_id: &str, target: &str) -> Result<(), CsiError> {
        check_volume_request(volume_id, target)?;
        let start = unpublish_start(self.mounted.contains(target));
        self.run(start, target)
    }
}

#[test]
fn test_publish_missing_volume_id() {
    let err = FakeNode::new().publish("", "/target", Some("/nix/store/abc"), Some("abc")).unwrap_err();
    assert_eq!(err.code, CsiCode::InvalidArgument);
}

#[test]
fn test_publish_missing_target_path() {
    let err = FakeNode::new().publish("vol-1", "", Some("/nix/store/abc"), Some("abc")).unwrap_err();
    assert_eq!(err.code, CsiCode::InvalidArgument);
}

#[test]
fn test_publish_missing_store_path() {
    let err = FakeNode::new().publish("vol-1", "/target", None, Some("abc")).unwrap_err();
    assert_eq!(err.code, CsiCode::InvalidArgument);
}

#[test]
fn test_publish_missing_closure_paths() {
    let err = FakeNode::new().publish("vol-1", "/target", Some("/nix/store/abc"), None).unwrap_err();
    assert_eq!(err.code, CsiCode::InvalidArgument);
}

#[test]
fn test_publish_already_mounted() {
    let mut node = FakeNode::with_mounted("/target");
    assert!(node.publish("vol-1", "/target", Some("/nix/store/abc"), Some("abc")).is_ok());
}

#[test]
fn test_publish_mount_failure() {
    let mut node = FakeNode::new();
    node.mount_fail = true;
    // The cache fetch fails before the mount is tried.
    let err = node.publish("vol-1", "/target", Some("/nix/store/abc"), Some("abc")).unwrap_err();
    assert_eq!(err.code, CsiCode::Unavailable);
}

#[test]
fn test_unpublish_missing_volume_id() {
    let err = FakeNode::new().unpublish("", "/target").unwrap_err();
    assert_eq!(err.code, CsiCode::InvalidArgument);
}

#[test]
fn test_unpublish_missing_target_path() {
    let err = FakeNode::new().unpublish("vol-1", "").unwrap_err();
    assert_eq!(err.code, CsiCode::InvalidArgument);
}

#[test]
fn test_unpublish_not_mounted() {
    assert!(FakeNode::new().unpublish("vol-1", "/target").is_ok());
}

#[test]
fn test_unpublish_success() {
    let mut node = FakeNode::with_mounted("/target");
    assert!(node.unpublish("vol-1", "/target").is_ok());
    assert!(!node.mounted.contains("/target"));
}

#[test]
fn node_publish_volume_success() {
    let err = FakeNode::new()
        .publish("vol-1", "/mnt/test-target", Some("/nix/store/abc123-hello"), Some("abc123-hello"))
        .unwrap_err();
    assert_eq!(err.code, CsiCode::Unavailable);
}

#[test]
fn node_publish_volume_missing_volume_id_returns_invalid_argument() {
    let err = FakeNode::new().publish("", "/mnt/target", None, None).unwrap_err();
    assert_eq!(err.code, CsiCode::InvalidArgument);
    assert!(err.message.contains("volume_id"));
}

#[test]
fn node_unpublish_volume_missing_target_path_returns_invalid_argument() {
    let err = FakeNode::new().unpublish("vol-1", "").unwrap_err();
    assert_eq!(err.code, CsiCode::InvalidArgument);
    assert!(err.message.contains("target_path"));
}

#[test]
fn node_steps_after_each_outcome() {
    assert!(matches!(node_step(NodeEvent::Fetched(Ok(()))), NodeAction::SetupTarget));
    assert!(matches!(node_step(NodeEvent::TargetSetUp(Ok(()))), NodeAction::BindMount));
    match node_step(NodeEvent::TargetSetUp(Err("eexist".into()))) {
        NodeAction::Reply(Err(e)) => {
            assert_eq!(e.code, CsiCode::Internal);
            assert_eq!(e.message, "failed to create target dir: eexist");
        }
        other => panic!("unexpected {:?}", other),
    }
    match node_step(NodeEvent::Mounted(Err("eperm".into()))) {
        NodeAction::CleanupAndReply(Err(e)) => assert_eq!(e.message, "bind mount failed: eperm"),
        other => panic!("unexpected {:?}", other),
    }
    match node_step(NodeEvent::Unmounted(Err("ebusy".into()))) {
        NodeAction::Reply(Err(e)) => assert_eq!(e.message, "unmount failed: ebusy"),
        other => panic!("unexpected {:?}", other),
    }
}
