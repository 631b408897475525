use vstd::prelude::*;
use crate::error::NiphasError;
use crate::hash::{nix_hash_eq, nix_hash_text, sha256_digest, sha256_hash, HashAlgo};
use crate::nar::{encode_archive, has_at, valid_tree, NarNode, NarReader, NarTree};
use crate::narinfo::{fingerprint_text, Compression, NarInfo};
use crate::signature::{some_signature_verifies, verify_narinfo, TrustedKey};
use vstd::utf8::encode_utf8;
use crate::text::{chars_of, find_char, push_str, push_u64, split_on, str_eq, string_of, trim, trim_range};

verus! {

/// The name the driver registers under.
pub const DRIVER_NAME: &'static str = "niphas.io.csi";

/// The driver version the identity service reports.
pub const DRIVER_VERSION: &'static str = "0.1.0";

/// What the identity service reports of the plugin.
#[derive(Debug)]
pub struct PluginInfo {
    pub name: String,
    pub vendor_version: String,
}

/// The CSI identity service.
pub struct IdentityService;

impl IdentityService {
    /// The driver's name and version.
    pub fn get_plugin_info(&self) -> (r: PluginInfo)
        ensures
            r.name@ == DRIVER_NAME@,
            r.vendor_version@ == DRIVER_VERSION@,
    {
        let mut name = String::new();
        push_str(&mut name, DRIVER_NAME);
        let mut vendor_version = String::new();
        push_str(&mut vendor_version, DRIVER_VERSION);
        PluginInfo { name, vendor_version }
    }

    /// The plugin's capabilities: none (no controller service; ephemeral inline volumes
    /// only).
    pub fn get_plugin_capabilities(&self) -> (r: Vec<String>)
        ensures
            r@.len() == 0,
    {
        Vec::new()
    }

    /// Whether the plugin is ready: always.
    pub fn probe(&self) -> (r: Option<bool>)
        ensures
            r == Some(true),
    {
        Some(true)
    }
}

/// The gRPC status codes the node service answers with.
#[derive(Debug, Clone, Copy, PartialEq, Eq, Structural)]
pub enum CsiCode {
    InvalidArgument,
    Unavailable,
    Internal,
    Unimplemented,
}

/// A refused CSI request: its status code and message.
#[derive(Debug)]
pub struct CsiError {
    pub code: CsiCode,
    pub message: String,
}

fn csi_error(code: CsiCode, msg: &str) -> (e: CsiError)
    ensures
        e.code == code,
        e.message@ == msg@,
{
    let mut m = String::new();
    push_str(&mut m, msg);
    CsiError { code, message: m }
}

fn csi_error_with(code: CsiCode, prefix: &str, cause: &str) -> (e: CsiError)
    ensures
        e.code == code,
        e.message@ == prefix@ + cause@,
{
    let mut m = String::new();
    push_str(&mut m, prefix);
    push_str(&mut m, cause);
    CsiError { code, message: m }
}

/// Both publish and unpublish need a volume id and a target path.
pub fn check_volume_request(volume_id: &str, target_path: &str) -> (r: Result<(), CsiError>)
    ensures
        r is Ok <==> volume_id@.len() > 0 && target_path@.len() > 0,
        r matches Err(e) ==> e.code == CsiCode::InvalidArgument && e.message@ == if volume_id@.len()
            == 0 {
            "volume_id is required"@
        } else {
            "target_path is required"@
        },
{
    let v = chars_of(volume_id);
    if v.len() == 0 {
        return Err(csi_error(CsiCode::InvalidArgument, "volume_id is required"));
    }
    let t = chars_of(target_path);
    if t.len() == 0 {
        return Err(csi_error(CsiCode::InvalidArgument, "target_path is required"));
    }
    Ok(())
}

/// `trim` as a function value.
pub open spec fn trim_fn() -> spec_fn(Seq<char>) -> Seq<char> {
    |p: Seq<char>| trim(p)
}

/// Whether a piece is non-empty, as a function value.
pub open spec fn nonempty_fn() -> spec_fn(Seq<char>) -> bool {
    |p: Seq<char>| p.len() > 0
}

/// The trimmed, non-empty pieces of a comma-separated list, in order.
#[verifier::opaque]
pub open spec fn closure_list(s: Seq<char>) -> Seq<Seq<char>> {
    split_on(s, ',').map_values(trim_fn()).filter(nonempty_fn())
}

/// The trimmed piece between `pos` and `end`, as a list of zero or one paths.
pub open spec fn kept_piece(p: Seq<char>) -> Seq<Seq<char>> {
    if trim(p).len() > 0 {
        seq![trim(p)]
    } else {
        Seq::empty()
    }
}

/// Trimming and dropping empty pieces goes piece by piece.
proof fn lemma_keep_pieces_cons(piece: Seq<char>, tail: Seq<Seq<char>>)
    ensures
        (seq![piece] + tail).map_values(trim_fn()).filter(nonempty_fn()) == kept_piece(piece)
            + tail.map_values(trim_fn()).filter(nonempty_fn()),
{
    let f = trim_fn();
    let g = nonempty_fn();
    assert((seq![piece] + tail).map_values(f) =~= seq![trim(piece)] + tail.map_values(f));
    Seq::<Seq<char>>::filter_distributes_over_add(seq![trim(piece)], tail.map_values(f), g);
    reveal_with_fuel(Seq::filter, 2);
    assert(seq![trim(piece)].filter(g) =~= kept_piece(piece)) by {
        assert(seq![trim(piece)].drop_last() =~= Seq::<Seq<char>>::empty());
    }
}

/// One step of the split: the list from `pos` is the piece up to the next comma (at
/// `end`, or the end of `s`), then the list after that comma.
proof fn lemma_closure_list_step(s: Seq<char>, pos: int, end: int)
    requires
        0 <= pos <= end <= s.len(),
        forall|k: int| pos <= k < end ==> s[k] != ',',
        end < s.len() ==> s[end] == ',',
    ensures
        closure_list(s.skip(pos)) == kept_piece(s.subrange(pos, end)) + if end < s.len() {
            closure_list(s.skip(end + 1))
        } else {
            Seq::<Seq<char>>::empty()
        },
{
    reveal(closure_list);
    let tail = if end < s.len() {
        split_on(s.skip(end + 1), ',')
    } else {
        Seq::<Seq<char>>::empty()
    };
    crate::text::lemma_split_on_step(s, ',', pos, end);
    lemma_keep_pieces_cons(s.subrange(pos, end), tail);
    if end >= s.len() {
        reveal(Seq::filter);
        assert(tail.map_values(trim_fn()) =~= Seq::<Seq<char>>::empty());
        assert(tail.map_values(trim_fn()).filter(nonempty_fn()) =~= Seq::<Seq<char>>::empty());
        assert(kept_piece(s.subrange(pos, end)) + Seq::<Seq<char>>::empty() =~= kept_piece(
            s.subrange(pos, end),
        ));
    }
}

/// The store paths of a comma-separated `closurePaths` attribute.
pub fn split_closure_paths(raw: &str) -> (r: Vec<String>)
    ensures
        Seq::new(r@.len(), |i: int| r@[i]@) == closure_list(raw@),
{
    let v = chars_of(raw);
    let mut out: Vec<String> = Vec::new();
    let mut pos: usize = 0;
    let ghost mut done: Seq<Seq<char>> = Seq::empty();
    proof {
        assert(v@.skip(0) =~= raw@);
        assert(done + closure_list(v@.skip(0)) =~= closure_list(raw@));
        assert(Seq::new(out@.len(), |i: int| out@[i]@) =~= done);
    }
    loop
        invariant_except_break
            done + closure_list(v@.skip(pos as int)) == closure_list(raw@),
        invariant
            pos <= v@.len(),
            v@ == raw@,
            Seq::new(out@.len(), |i: int| out@[i]@) == done,
        ensures
            done == closure_list(raw@),
        decreases v@.len() - pos,
    {
        let end = match find_char(&v, pos, v.len(), ',') {
            Some(k) => k,
            None => v.len(),
        };
        let (a, b) = trim_range(&v, pos, end);
        proof {
            lemma_closure_list_step(v@, pos as int, end as int);
        }
        let ghost before = done;
        if a < b {
            let p = string_of(&v, a, b);
            out.push(p);
            proof {
                done = done.push(trim(v@.subrange(pos as int, end as int)));
                assert(Seq::new(out@.len(), |i: int| out@[i]@) =~= done);
            }
        }
        proof {
            if end < v@.len() {
                assert(before + closure_list(v@.skip(pos as int)) =~= done + closure_list(
                    v@.skip(end + 1),
                ));
            } else {
                assert(before + closure_list(v@.skip(pos as int)) =~= done);
            }
        }
        if end == v.len() {
            break;
        }
        pos = end + 1;
    }
    out
}

/// What a publish needs of the volume context: the store path and at least one closure
/// path.
pub fn publish_context(store_path: Option<&str>, closure_paths: Option<&str>) -> (r: Result<
    Vec<String>,
    CsiError,
>)
    ensures
        match (store_path, closure_paths) {
            (None, _) => r matches Err(e) && e.code == CsiCode::InvalidArgument && e.message@
                == "volumeAttributes.storePath is required"@,
            (Some(_), None) => r matches Err(e) && e.code == CsiCode::InvalidArgument && e.message@
                == "volumeAttributes.closurePaths is required"@,
            (Some(_), Some(c)) => if closure_list(c@).len() == 0 {
                r matches Err(e) && e.code == CsiCode::InvalidArgument && e.message@
                    == "closurePaths must contain at least one path"@
            } else {
                r matches Ok(v) && Seq::new(v@.len(), |i: int| v@[i]@) == closure_list(c@)
            },
        },
{
    if store_path.is_none() {
        return Err(csi_error(CsiCode::InvalidArgument, "volumeAttributes.storePath is required"));
    }
    let raw = match closure_paths {
        Some(c) => c,
        None => {
            return Err(
                csi_error(CsiCode::InvalidArgument, "volumeAttributes.closurePaths is required"),
            );
        },
    };
    let paths = split_closure_paths(raw);
    if paths.len() == 0 {
        return Err(csi_error(CsiCode::InvalidArgument, "closurePaths must contain at least one path"));
    }
    Ok(paths)
}

/// The error for a closure that could not be fetched.
pub fn fetch_failed(cause: &str) -> (e: CsiError)
    ensures
        e.code == CsiCode::Unavailable,
        e.message@ == "failed to fetch closure: "@ + cause@,
{
    csi_error_with(CsiCode::Unavailable, "failed to fetch closure: ", cause)
}

/// The error for a target directory that could not be created.
pub fn setup_failed(cause: &str) -> (e: CsiError)
    ensures
        e.code == CsiCode::Internal,
        e.message@ == "failed to create target dir: "@ + cause@,
{
    csi_error_with(CsiCode::Internal, "failed to create target dir: ", cause)
}

/// The error for a failed bind mount.
pub fn bind_failed(cause: &str) -> (e: CsiError)
    ensures
        e.code == CsiCode::Internal,
        e.message@ == "bind mount failed: "@ + cause@,
{
    csi_error_with(CsiCode::Internal, "bind mount failed: ", cause)
}

/// The error for a failed unmount.
pub fn unmount_failed(cause: &str) -> (e: CsiError)
    ensures
        e.code == CsiCode::Internal,
        e.message@ == "unmount failed: "@ + cause@,
{
    csi_error_with(CsiCode::Internal, "unmount failed: ", cause)
}

/// The error for the node calls the driver does not implement.
pub fn unimplemented(what: &str) -> (e: CsiError)
    ensures
        e.code == CsiCode::Unimplemented,
        e.message@ == what@,
{
    csi_error(CsiCode::Unimplemented, what)
}

// ---------------------------------------------------------------------------
// Paths
// ---------------------------------------------------------------------------

/// `/nix/store/`.
pub open spec fn nix_store_prefix() -> Seq<char> {
    seq!['/', 'n', 'i', 'x', '/', 's', 't', 'o', 'r', 'e', '/']
}

/// The basename of a store path: without its `/nix/store/` prefix, if it has one.
pub open spec fn store_basename(p: Seq<char>) -> Seq<char> {
    if p.len() >= 11 && p.take(11) == nix_store_prefix() {
        p.skip(11)
    } else {
        p
    }
}

/// `dir` joined with `p` as `Path::join` joins them: an absolute `p` replaces `dir`,
/// otherwise one `/` separates them.
pub open spec fn path_join(dir: Seq<char>, p: Seq<char>) -> Seq<char> {
    if p.len() > 0 && p[0] == '/' {
        p
    } else if dir.len() == 0 || dir.last() == '/' {
        dir + p
    } else {
        dir + seq!['/'] + p
    }
}

/// Local NAR cache on each node: where fetched store paths are extracted.
pub struct NarCache {
    pub cache_dir: String,
}

impl NarCache {
    /// A cache rooted at `cache_dir`.
    pub fn new(cache_dir: &str) -> (r: NarCache)
        ensures
            r.cache_dir@ == cache_dir@,
    {
        let mut d = String::new();
        push_str(&mut d, cache_dir);
        NarCache { cache_dir: d }
    }

    /// The basename of a store path (without `/nix/store/`).
    pub fn basename(store_path: &str) -> (r: String)
        ensures
            r@ == store_basename(store_path@),
    {
        let v = chars_of(store_path);
        if v.len() >= 11 && crate::text::range_eq_str(&v, 0, 11, "/nix/store/") {
            proof {
                reveal_strlit("/nix/store/");
                assert(v@.subrange(0, 11) =~= store_path@.take(11));
                assert("/nix/store/"@ =~= nix_store_prefix());
            }
            let r = string_of(&v, 11, v.len());
            proof {
                assert(r@ =~= store_path@.skip(11));
            }
            r
        } else {
            proof {
                reveal_strlit("/nix/store/");
                assert("/nix/store/"@ =~= nix_store_prefix());
                if v@.len() >= 11 {
                    assert(v@.subrange(0, 11) =~= store_path@.take(11));
                }
            }
            let r = string_of(&v, 0, v.len());
            proof {
                assert(r@ =~= store_path@);
            }
            r
        }
    }

    /// Return the filesystem path for a given store path basename.
    pub fn path_for(&self, store_path: &str) -> (r: String)
        ensures
            r@ == path_join(self.cache_dir@, store_basename(store_path@)),
    {
        let b = NarCache::basename(store_path);
        let bv = chars_of(b.as_str());
        if bv.len() > 0 && bv[0] == '/' {
            return b;
        }
        let dv = chars_of(self.cache_dir.as_str());
        let mut r = String::new();
        push_str(&mut r, self.cache_dir.as_str());
        if dv.len() > 0 && dv[dv.len() - 1] != '/' {
            r.push('/');
        }
        push_str(&mut r, b.as_str());
        proof {
            assert(r@ =~= path_join(self.cache_dir@, store_basename(store_path@)));
        }
        r
    }
}

/// The name of the directory a path is extracted into before it is moved in place.
pub fn temp_dir_name(basename: &str, pid: u32) -> (r: String)
    ensures
        r@ == ".tmp-"@ + basename@ + "-"@ + crate::text::decimal(pid as nat),
{
    let mut r = String::new();
    push_str(&mut r, ".tmp-");
    push_str(&mut r, basename);
    push_str(&mut r, "-");
    push_u64(&mut r, pid as u64);
    r
}

/// Whether a cache entry is a temporary directory left by an interrupted extraction.
pub fn is_temp_entry(name: &str) -> (r: bool)
    ensures
        r == (name@.len() >= 5 && name@.take(5) == ".tmp-"@),
{
    let v = chars_of(name);
    if v.len() < 5 {
        return false;
    }
    let r = crate::text::range_eq_str(&v, 0, 5, ".tmp-");
    proof {
        assert(v@.subrange(0, 5) =~= name@.take(5));
    }
    r
}

// ---------------------------------------------------------------------------
// Checking what was fetched
// ---------------------------------------------------------------------------

/// The decompressor a `.narinfo`'s compression calls for.
#[derive(Debug, Clone, Copy, PartialEq, Eq, Structural)]
pub enum Decoder {
    Identity,
    Zstd,
    Xz,
    Bzip2,
}

/// The decompressor for `c`; `br`, `lzip` and `lz4` are not supported.
pub fn decoder_for(c: Compression) -> (r: Result<Decoder, NiphasError>)
    ensures
        match c {
            Compression::Uncompressed => r == Ok::<Decoder, NiphasError>(Decoder::Identity),
            Compression::Zstd => r == Ok::<Decoder, NiphasError>(Decoder::Zstd),
            Compression::Xz => r == Ok::<Decoder, NiphasError>(Decoder::Xz),
            Compression::Bzip2 => r == Ok::<Decoder, NiphasError>(Decoder::Bzip2),
            _ => r matches Err(NiphasError::Cache(m)) && m@ == "unsupported compression: "@
                + c.name(),
        },
{
    match c {
        Compression::Uncompressed => Ok(Decoder::Identity),
        Compression::Zstd => Ok(Decoder::Zstd),
        Compression::Xz => Ok(Decoder::Xz),
        Compression::Bzip2 => Ok(Decoder::Bzip2),
        _ => {
            let mut m = String::new();
            push_str(&mut m, "unsupported compression: ");
            push_str(&mut m, c.as_str());
            Err(NiphasError::Cache(m))
        },
    }
}

/// The zstd decompression of `data`, or `None` where the bytes are not a zstd stream.
pub uninterp spec fn zstd_decompressed(data: Seq<u8>) -> Option<Seq<u8>>;

/// The xz decompression of `data`, or `None` where the bytes are not an xz stream.
pub uninterp spec fn xz_decompressed(data: Seq<u8>) -> Option<Seq<u8>>;

/// The bzip2 decompression of `data`, or `None` where the bytes are not a bzip2 stream.
pub uninterp spec fn bzip2_decompressed(data: Seq<u8>) -> Option<Seq<u8>>;

/// Reads `async_compression`'s tokio `ZstdDecoder` over the in-memory bytes to the end
/// (polled to completion with `futures::executor::block_on`). What comes out, or whether
/// it fails, depends on the bytes alone: the contract names it `zstd_decompressed`. The
/// text of the I/O error is not stated.
#[verifier::external_body]
fn zstd_decode(data: &[u8]) -> (r: Result<Vec<u8>, String>)
    ensures
        match zstd_decompressed(data@) {
            Some(d) => r matches Ok(v) && v@ == d,
            None => r is Err,
        },
{
    let mut decoder = Box::pin(async_compression::tokio::bufread::ZstdDecoder::new(data));
    let mut out = Vec::new();
    match futures::executor::block_on(tokio::io::AsyncReadExt::read_to_end(&mut decoder, &mut out)) {
        Ok(_) => Ok(out),
        Err(e) => Err(e.to_string()),
    }
}

/// Reads `async_compression`'s tokio `XzDecoder` over the in-memory bytes to the end
/// (polled with `futures::executor::block_on`); the result is named `xz_decompressed`.
/// The text of the I/O error is not stated.
#[verifier::external_body]
fn xz_decode(data: &[u8]) -> (r: Result<Vec<u8>, String>)
    ensures
        match xz_decompressed(data@) {
            Some(d) => r matches Ok(v) && v@ == d,
            None => r is Err,
        },
{
    let mut decoder = Box::pin(async_compression::tokio::bufread::XzDecoder::new(data));
    let mut out = Vec::new();
    match futures::executor::block_on(tokio::io::AsyncReadExt::read_to_end(&mut decoder, &mut out)) {
        Ok(_) => Ok(out),
        Err(e) => Err(e.to_string()),
    }
}

/// Reads `async_compression`'s tokio `BzDecoder` over the in-memory bytes to the end
/// (polled with `futures::executor::block_on`); the result is named `bzip2_decompressed`.
/// The text of the I/O error is not stated.
#[verifier::external_body]
fn bzip2_decode(data: &[u8]) -> (r: Result<Vec<u8>, String>)
    ensures
        match bzip2_decompressed(data@) {
            Some(d) => r matches Ok(v) && v@ == d,
            None => r is Err,
        },
{
    let mut decoder = Box::pin(async_compression::tokio::bufread::BzDecoder::new(data));
    let mut out = Vec::new();
    match futures::executor::block_on(tokio::io::AsyncReadExt::read_to_end(&mut decoder, &mut out)) {
        Ok(_) => Ok(out),
        Err(e) => Err(e.to_string()),
    }
}

/// `r` is what decompressing gives when the decoder's result is `d`: the bytes, or an
/// I/O error.
pub open spec fn decoded_as(d: Option<Seq<u8>>, r: Result<Vec<u8>, NiphasError>) -> bool {
    match d {
        Some(b) => r matches Ok(v) && v@ == b,
        None => r matches Err(e) && e is Io,
    }
}

fn io_result(r: Result<Vec<u8>, String>) -> (out: Result<Vec<u8>, NiphasError>)
    ensures
        match r {
            Ok(v) => out matches Ok(w) && w@ == v@,
            Err(_) => out matches Err(e) && e is Io,
        },
{
    match r {
        Ok(v) => Ok(v),
        Err(m) => Err(NiphasError::Io(m)),
    }
}

/// Decompresses a downloaded NAR file as its `.narinfo`'s `Compression` says.
pub fn decompress_nar(narinfo: &NarInfo, data: &[u8]) -> (r: Result<Vec<u8>, NiphasError>)
    ensures
        match narinfo.compression {
            Compression::Uncompressed => r matches Ok(v) && v@ == data@,
            Compression::Zstd => decoded_as(zstd_decompressed(data@), r),
            Compression::Xz => decoded_as(xz_decompressed(data@), r),
            Compression::Bzip2 => decoded_as(bzip2_decompressed(data@), r),
            c => r matches Err(NiphasError::Cache(m)) && m@ == "unsupported compression: "@
                + c.name(),
        },
{
    match decoder_for(narinfo.compression) {
        Ok(Decoder::Identity) => Ok(vstd::slice::slice_to_vec(data)),
        Ok(Decoder::Zstd) => io_result(zstd_decode(data)),
        Ok(Decoder::Xz) => io_result(xz_decode(data)),
        Ok(Decoder::Bzip2) => io_result(bzip2_decode(data)),
        Err(e) => Err(e),
    }
}

/// Accepts a fetched `.narinfo` only when one of its signatures verifies its fingerprint
/// under a trusted key; with no trusted key, nothing is accepted.
pub fn check_narinfo_signature(narinfo: &NarInfo, trusted_keys: &[TrustedKey]) -> (r: Result<
    (),
    NiphasError,
>)
    requires
        narinfo.nar_hash.digest@.len() * 8 + 4 <= usize::MAX,
    ensures
        r is Ok <==> some_signature_verifies(
            encode_utf8(fingerprint_text(*narinfo)),
            narinfo.signatures@,
            trusted_keys@,
        ),
        r matches Err(e) ==> e matches NiphasError::SignatureVerification(m) && m@
            == "no valid signature found matching any trusted key"@,
{
    let fp = narinfo.fingerprint();
    verify_narinfo(fp.as_str(), narinfo.signatures.as_slice(), trusted_keys)
}

/// Checks the downloaded (compressed) file against the `.narinfo`'s `FileHash`.
pub fn verify_file_hash(narinfo: &NarInfo, data: &[u8]) -> (r: Result<(), NiphasError>)
    requires
        narinfo.file_hash.digest@.len() * 8 + 4 <= usize::MAX,
    ensures
        r is Ok <==> (narinfo.file_hash.algo == HashAlgo::Sha256 && narinfo.file_hash.digest@
            == sha256_digest(data@)),
        r matches Err(e) ==> e matches NiphasError::HashMismatch { expected, actual } && expected@
            == nix_hash_text(narinfo.file_hash.algo, narinfo.file_hash.digest@) && actual@
            == nix_hash_text(HashAlgo::Sha256, sha256_digest(data@)),
{
    let h = sha256_hash(data);
    if !nix_hash_eq(&h, &narinfo.file_hash) {
        return Err(
            NiphasError::HashMismatch {
                expected: narinfo.file_hash.to_string(),
                actual: h.to_string(),
            },
        );
    }
    Ok(())
}

/// Parses the decompressed NAR and checks it against the `.narinfo`'s `NarHash`.
pub fn check_nar(narinfo: &NarInfo, decompressed: Vec<u8>) -> (r: Result<NarNode, NiphasError>)
    requires
        narinfo.nar_hash.digest@.len() * 8 + 4 <= usize::MAX,
    ensures
        r matches Ok(n) ==> {
            &&& valid_tree(n.tree(), 0, 256)
            &&& has_at(decompressed@, 0, encode_archive(n.tree()))
            &&& narinfo.nar_hash.algo == HashAlgo::Sha256
            &&& narinfo.nar_hash.digest@ == sha256_digest(encode_archive(n.tree()))
        },
        forall|t: NarTree|
            valid_tree(t, 0, 256) && #[trigger] has_at(decompressed@, 0, encode_archive(t)) ==> match r {
                Ok(n) => n.tree() == t,
                Err(e) => !(narinfo.nar_hash.algo == HashAlgo::Sha256 && narinfo.nar_hash.digest@
                    == sha256_digest(encode_archive(t))) && (e matches NiphasError::HashMismatch {
                    expected,
                    actual,
                } && expected@ == nix_hash_text(narinfo.nar_hash.algo, narinfo.nar_hash.digest@)
                    && actual@ == nix_hash_text(HashAlgo::Sha256, sha256_digest(encode_archive(t)))),
            },
        r matches Err(e) ==> e is NarParse || e is HashMismatch,
        r matches Err(NiphasError::NarParse(_)) ==> !exists|t: NarTree|
            valid_tree(t, 0, 256) && #[trigger] has_at(decompressed@, 0, encode_archive(t)),
{
    let reader = NarReader::new(decompressed);
    let (node, nar_hash) = match reader.parse() {
        Ok(x) => x,
        Err(e) => return Err(e),
    };
    if !nix_hash_eq(&nar_hash, &narinfo.nar_hash) {
        return Err(
            NiphasError::HashMismatch {
                expected: narinfo.nar_hash.to_string(),
                actual: nar_hash.to_string(),
            },
        );
    }
    Ok(node)
}

/// The bytes of the NAR inside a downloaded file, as its `.narinfo`'s `Compression`
/// says: the file itself, or what the decoder gives; `None` when it cannot be decoded.
pub open spec fn nar_bytes(c: Compression, data: Seq<u8>) -> Option<Seq<u8>> {
    match c {
        Compression::Uncompressed => Some(data),
        Compression::Zstd => zstd_decompressed(data),
        Compression::Xz => xz_decompressed(data),
        Compression::Bzip2 => bzip2_decompressed(data),
        _ => None,
    }
}

/// Some signature of the `.narinfo` verifies its fingerprint under one of `keys`.
pub open spec fn narinfo_signed(narinfo: NarInfo, keys: Seq<TrustedKey>) -> bool {
    some_signature_verifies(encode_utf8(fingerprint_text(narinfo)), narinfo.signatures@, keys)
}

/// The downloaded file has the `.narinfo`'s `FileHash`.
pub open spec fn file_matches(narinfo: NarInfo, data: Seq<u8>) -> bool {
    narinfo.file_hash.algo == HashAlgo::Sha256 && narinfo.file_hash.digest@ == sha256_digest(data)
}

/// The error of a NAR file that cannot be decoded: an I/O error from the decoder, or
/// the unsupported compression named.
pub open spec fn undecodable_error(c: Compression, e: NiphasError) -> bool {
    match c {
        Compression::Zstd | Compression::Xz | Compression::Bzip2 => e is Io,
        _ => e matches NiphasError::Cache(m) && m@ == "unsupported compression: "@ + c.name(),
    }
}

/// Everything a fetched store path must pass before it is extracted, in order: a
/// signature of its `.narinfo` verifies under a trusted key, the downloaded file has the
/// `FileHash`, it decodes, and the decoded bytes are a NAR with the `NarHash`. Gives the
/// NAR's tree; the first check that fails gives the error.
pub fn checked_nar(narinfo: &NarInfo, trusted_keys: &[TrustedKey], data: &[u8]) -> (r: Result<
    NarNode,
    NiphasError,
>)
    requires
        narinfo.nar_hash.digest@.len() * 8 + 4 <= usize::MAX,
        narinfo.file_hash.digest@.len() * 8 + 4 <= usize::MAX,
    ensures
        !narinfo_signed(*narinfo, trusted_keys@) ==> (r matches Err(
            NiphasError::SignatureVerification(m),
        ) && m@ == "no valid signature found matching any trusted key"@),
        narinfo_signed(*narinfo, trusted_keys@) && !file_matches(*narinfo, data@) ==> (r matches Err(
            NiphasError::HashMismatch { expected, actual },
        ) && expected@ == nix_hash_text(narinfo.file_hash.algo, narinfo.file_hash.digest@)
            && actual@ == nix_hash_text(HashAlgo::Sha256, sha256_digest(data@))),
        narinfo_signed(*narinfo, trusted_keys@) && file_matches(*narinfo, data@) && nar_bytes(
            narinfo.compression,
            data@,
        ) is None ==> (r matches Err(e) && undecodable_error(narinfo.compression, e)),
        r matches Ok(n) ==> {
            &&& narinfo_signed(*narinfo, trusted_keys@)
            &&& file_matches(*narinfo, data@)
            &&& nar_bytes(narinfo.compression, data@) is Some
            &&& valid_tree(n.tree(), 0, 256)
            &&& has_at(nar_bytes(narinfo.compression, data@).unwrap(), 0, encode_archive(n.tree()))
            &&& narinfo.nar_hash.algo == HashAlgo::Sha256
            &&& narinfo.nar_hash.digest@ == sha256_digest(encode_archive(n.tree()))
        },
        forall|t: NarTree|
            narinfo_signed(*narinfo, trusted_keys@) && file_matches(*narinfo, data@) && nar_bytes(
                narinfo.compression,
                data@,
            ) is Some && valid_tree(t, 0, 256) && #[trigger] has_at(
                nar_bytes(narinfo.compression, data@).unwrap(),
                0,
                encode_archive(t),
            ) ==> match r {
                Ok(n) => n.tree() == t,
                Err(e) => !(narinfo.nar_hash.algo == HashAlgo::Sha256 && narinfo.nar_hash.digest@
                    == sha256_digest(encode_archive(t))) && (e matches NiphasError::HashMismatch {
                    expected,
                    actual,
                } && expected@ == nix_hash_text(narinfo.nar_hash.algo, narinfo.nar_hash.digest@)
                    && actual@ == nix_hash_text(HashAlgo::Sha256, sha256_digest(encode_archive(t)))),
            },
        narinfo_signed(*narinfo, trusted_keys@) && file_matches(*narinfo, data@) && nar_bytes(
            narinfo.compression,
            data@,
        ) is Some ==> (r matches Err(e) ==> (e is NarParse || e is HashMismatch)),
{
    match check_narinfo_signature(narinfo, trusted_keys) {
        Ok(()) => {},
        Err(e) => return Err(e),
    }
    match verify_file_hash(narinfo, data) {
        Ok(()) => {},
        Err(e) => return Err(e),
    }
    let decompressed = match decompress_nar(narinfo, data) {
        Ok(d) => d,
        Err(e) => return Err(e),
    };
    check_nar(narinfo, decompressed)
}


/// What a publish does once its volume id and target path are checked.
#[derive(Debug)]
pub enum PublishPlan {
    /// The target is already mounted: nothing to do.
    AlreadyMounted,
    /// Fetch the closure paths, then bind-mount `source` at the target.
    Mount { closure_paths: Vec<String>, source: String },
}

/// The publish decision: an already mounted target is left as it is; otherwise the
/// volume context must name the store path and at least one closure path, and the
/// store path's cache directory is mounted.
pub fn plan_publish(
    already_mounted: bool,
    store_path: Option<&str>,
    closure_paths: Option<&str>,
    cache: &NarCache,
) -> (r: Result<PublishPlan, CsiError>)
    ensures
        already_mounted ==> r matches Ok(PublishPlan::AlreadyMounted),
        !already_mounted ==> match (store_path, closure_paths) {
            (None, _) => r matches Err(e) && e.code == CsiCode::InvalidArgument && e.message@
                == "volumeAttributes.storePath is required"@,
            (Some(_), None) => r matches Err(e) && e.code == CsiCode::InvalidArgument && e.message@
                == "volumeAttributes.closurePaths is required"@,
            (Some(s), Some(c)) => if closure_list(c@).len() == 0 {
                r matches Err(e) && e.code == CsiCode::InvalidArgument && e.message@
                    == "closurePaths must contain at least one path"@
            } else {
                r matches Ok(PublishPlan::Mount { closure_paths: v, source }) && Seq::new(
                    v@.len(),
                    |i: int| v@[i]@,
                ) == closure_list(c@) && source@ == path_join(
                    cache.cache_dir@,
                    store_basename(s@),
                )
            },
        },
{
    if already_mounted {
        return Ok(PublishPlan::AlreadyMounted);
    }
    let paths = match publish_context(store_path, closure_paths) {
        Ok(p) => p,
        Err(e) => return Err(e),
    };
    let sp = match store_path {
        Some(s) => s,
        None => return Err(csi_error(CsiCode::InvalidArgument, "volumeAttributes.storePath is required")),
    };
    let source = cache.path_for(sp);
    Ok(PublishPlan::Mount { closure_paths: paths, source })
}

/// What the node does next while publishing or unpublishing a volume.
#[derive(Debug)]
pub enum NodeAction {
    /// Fetch the closure paths into the node cache.
    FetchClosure,
    /// Create the target directory.
    SetupTarget,
    /// Bind-mount the cached store path read-only at the target.
    BindMount,
    /// Unmount the target.
    Unmount,
    /// Remove the target directory, then answer.
    CleanupAndReply(Result<(), CsiError>),
    /// Answer.
    Reply(Result<(), CsiError>),
}

/// What came back from the node's last step.
pub enum NodeEvent {
    Fetched(Result<(), String>),
    TargetSetUp(Result<(), String>),
    Mounted(Result<(), String>),
    Unmounted(Result<(), String>),
}

/// The next step of a publish or unpublish after `event`: a fetched closure leads to the
/// target directory, a ready directory to the bind mount, a mount to the answer; a failed
/// bind mount removes the directory first, an unmount is followed by removing it; each
/// failure is answered with its own error.
pub fn node_step(event: NodeEvent) -> (r: NodeAction)
    ensures
        match event {
            NodeEvent::Fetched(Ok(())) => r is SetupTarget,
            NodeEvent::Fetched(Err(c)) => r matches NodeAction::Reply(Err(e)) && e.code
                == CsiCode::Unavailable && e.message@ == "failed to fetch closure: "@ + c@,
            NodeEvent::TargetSetUp(Ok(())) => r is BindMount,
            NodeEvent::TargetSetUp(Err(c)) => r matches NodeAction::Reply(Err(e)) && e.code
                == CsiCode::Internal && e.message@ == "failed to create target dir: "@ + c@,
            NodeEvent::Mounted(Ok(())) => r matches NodeAction::Reply(Ok(())),
            NodeEvent::Mounted(Err(c)) => r matches NodeAction::CleanupAndReply(Err(e)) && e.code
                == CsiCode::Internal && e.message@ == "bind mount failed: "@ + c@,
            NodeEvent::Unmounted(Ok(())) => r matches NodeAction::CleanupAndReply(Ok(())),
            NodeEvent::Unmounted(Err(c)) => r matches NodeAction::Reply(Err(e)) && e.code
                == CsiCode::Internal && e.message@ == "unmount failed: "@ + c@,
        },
{
    match event {
        NodeEvent::Fetched(Ok(())) => NodeAction::SetupTarget,
        NodeEvent::Fetched(Err(c)) => NodeAction::Reply(Err(fetch_failed(c.as_str()))),
        NodeEvent::TargetSetUp(Ok(())) => NodeAction::BindMount,
        NodeEvent::TargetSetUp(Err(c)) => NodeAction::Reply(Err(setup_failed(c.as_str()))),
        NodeEvent::Mounted(Ok(())) => NodeAction::Reply(Ok(())),
        NodeEvent::Mounted(Err(c)) => NodeAction::CleanupAndReply(Err(bind_failed(c.as_str()))),
        NodeEvent::Unmounted(Ok(())) => NodeAction::CleanupAndReply(Ok(())),
        NodeEvent::Unmounted(Err(c)) => NodeAction::Reply(Err(unmount_failed(c.as_str()))),
    }
}

/// How an unpublish starts once its volume id and target path are checked: a target that
/// is not mounted only has its directory removed; a mounted one is unmounted.
pub fn unpublish_start(mounted: bool) -> (r: NodeAction)
    ensures
        mounted ==> r is Unmount,
        !mounted ==> r matches NodeAction::CleanupAndReply(Ok(())),
{
    if mounted {
        NodeAction::Unmount
    } else {
        NodeAction::CleanupAndReply(Ok(()))
    }
}

} // verus!
