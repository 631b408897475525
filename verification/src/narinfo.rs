use vstd::prelude::*;
use vstd::string::StringSliceAdditionalSpecFns;
use vstd::utf8::encode_utf8;
use crate::error::NiphasError;
use crate::hash::{
    nix_hash_error, nix_hash_text, parse_nix_hash_panics, parse_nix_hash_spec, HashAlgo, NixHash,
};
use crate::nar::bytes_lt;
use crate::signature::{parse_signature_spec, signature_error, NarSignature};
use crate::store_path::{
    basename_cuts_char, basename_parts, store_path_text, store_prefix, StorePath, StorePathRef,
};
use crate::text::{
    u64_parse_message,
    decimal, first_index, is_whitespace, parse_u64_spec, push_str, trim, trim_start,
};

verus! {

/// Compression method for NAR files.
#[derive(Debug, Clone, Copy, PartialEq, Eq, Structural)]
pub enum Compression {
    Uncompressed,
    Xz,
    Bzip2,
    Zstd,
    Br,
    Lzip,
    Lz4,
}

/// The compression a name stands for.
pub open spec fn compression_named(s: Seq<char>) -> Option<Compression> {
    if s == "none"@ {
        Some(Compression::Uncompressed)
    } else if s == "xz"@ {
        Some(Compression::Xz)
    } else if s == "bzip2"@ {
        Some(Compression::Bzip2)
    } else if s == "zstd"@ {
        Some(Compression::Zstd)
    } else if s == "br"@ {
        Some(Compression::Br)
    } else if s == "lzip"@ {
        Some(Compression::Lzip)
    } else if s == "lz4"@ {
        Some(Compression::Lz4)
    } else {
        None
    }
}

/// A compression's name reads back as that compression.
pub proof fn lemma_compression_name_roundtrip(c: Compression)
    ensures
        compression_named(c.name()) == Some(c),
{
    reveal_strlit("none");
    reveal_strlit("xz");
    reveal_strlit("bzip2");
    reveal_strlit("zstd");
    reveal_strlit("br");
    reveal_strlit("lzip");
    reveal_strlit("lz4");
    let n = c.name();
    assert(n.len() != 4 || n[0] != "none"@[0] || c == Compression::Uncompressed);
    assert(n.len() != 2 || n[0] != "xz"@[0] || c == Compression::Xz);
    assert(n.len() != 5 || c == Compression::Bzip2);
    assert(n.len() != 4 || n[0] != "zstd"@[0] || c == Compression::Zstd);
    assert(n.len() != 2 || n[0] != "br"@[0] || c == Compression::Br);
    assert(n.len() != 4 || n[0] != "lzip"@[0] || c == Compression::Lzip);
    assert(n.len() != 3 || c == Compression::Lz4);
}

impl Compression {
    /// The name `Display` writes.
    pub open spec fn name(self) -> Seq<char> {
        match self {
            Compression::Uncompressed => "none"@,
            Compression::Xz => "xz"@,
            Compression::Bzip2 => "bzip2"@,
            Compression::Zstd => "zstd"@,
            Compression::Br => "br"@,
            Compression::Lzip => "lzip"@,
            Compression::Lz4 => "lz4"@,
        }
    }

    /// The compression a `Compression` field names.
    pub fn parse(s: &str) -> (r: Result<Compression, NiphasError>)
        ensures
            match r {
                Ok(c) => compression_named(s@) == Some(c),
                Err(e) => compression_named(s@) is None && (e matches NiphasError::NarInfoParse(m)
                    && m@ == "unknown compression: '"@ + s@ + "'"@),
            },
    {
        if crate::text::str_eq(s, "none") {
            Ok(Compression::Uncompressed)
        } else if crate::text::str_eq(s, "xz") {
            Ok(Compression::Xz)
        } else if crate::text::str_eq(s, "bzip2") {
            Ok(Compression::Bzip2)
        } else if crate::text::str_eq(s, "zstd") {
            Ok(Compression::Zstd)
        } else if crate::text::str_eq(s, "br") {
            Ok(Compression::Br)
        } else if crate::text::str_eq(s, "lzip") {
            Ok(Compression::Lzip)
        } else if crate::text::str_eq(s, "lz4") {
            Ok(Compression::Lz4)
        } else {
            let mut msg = String::new();
            push_str(&mut msg, "unknown compression: '");
            push_str(&mut msg, s);
            push_str(&mut msg, "'");
            Err(NiphasError::NarInfoParse(msg))
        }
    }

    /// The name, as `Display` writes it.
    pub fn as_str(&self) -> (r: &'static str)
        ensures
            r@ == self.name(),
    {
        match self {
            Compression::Uncompressed => "none",
            Compression::Xz => "xz",
            Compression::Bzip2 => "bzip2",
            Compression::Zstd => "zstd",
            Compression::Br => "br",
            Compression::Lzip => "lzip",
            Compression::Lz4 => "lz4",
        }
    }

    /// The name, as `Display` writes it.
    pub fn to_string(&self) -> (r: String)
        ensures
            r@ == self.name(),
    {
        self.as_str().to_string()
    }
}

// ---------------------------------------------------------------------------
// The line format
// ---------------------------------------------------------------------------

/// `s` holds `": "` at `i`.
pub open spec fn separator_at(s: Seq<char>, i: int) -> bool {
    0 <= i && i + 1 < s.len() && s[i] == ':' && s[i + 1] == ' '
}

/// The index of the first `": "` in `s`, if any.
#[verifier::opaque]
pub open spec fn first_separator(s: Seq<char>) -> Option<int> {
    if exists|i: int| #[trigger] separator_at(s, i) {
        Some(
            choose|i: int|
                #[trigger] separator_at(s, i) && forall|k: int| 0 <= k < i ==> !separator_at(s, k),
        )
    } else {
        None
    }
}

/// Where the first whitespace of `s` is, or its length.
pub open spec fn word_end(s: Seq<char>) -> int
    decreases s.len(),
{
    if s.len() == 0 || is_whitespace(s[0]) {
        0
    } else {
        1 + word_end(s.skip(1))
    }
}

/// The whitespace-separated words of `s` (`str::split_whitespace`).
pub open spec fn words(s: Seq<char>) -> Seq<Seq<char>>
    decreases s.len(),
{
    let t = trim_start(s);
    if t.len() == 0 {
        Seq::empty()
    } else {
        let k = word_end(t);
        if 0 < k <= t.len() && t.len() <= s.len() {
            seq![t.take(k)] + words(t.skip(k))
        } else {
            Seq::empty()
        }
    }
}

/// How reading the `.narinfo` goes so far: the fields seen, a refusal (with what holds
/// of the error it comes with), or a value on which a parser would index out of bounds.
pub enum Scan {
    Fields(NarInfoFieldsView),
    Failed(spec_fn(NiphasError) -> bool),
    Panics,
}

/// The error of a refused value: a `NarInfoParse` error whose message is `m`.
pub open spec fn parse_error_is(m: Seq<char>) -> spec_fn(NiphasError) -> bool {
    |e: NiphasError| e matches NiphasError::NarInfoParse(x) && x@ == m
}

/// The message of a line without `": "`.
pub open spec fn malformed_line(line: Seq<char>) -> Seq<char> {
    "malformed line: '"@ + line + "'"@
}

/// The fields seen, as values.
pub struct NarInfoFieldsView {
    pub store_path: Option<(Seq<u8>, Seq<char>)>,
    pub url: Option<Seq<char>>,
    pub compression: Option<Compression>,
    pub file_hash: Option<(HashAlgo, Seq<u8>)>,
    pub file_size: Option<u64>,
    pub nar_hash: Option<(HashAlgo, Seq<u8>)>,
    pub nar_size: Option<u64>,
    pub references: Seq<Seq<char>>,
    pub deriver: Option<Seq<char>>,
    pub signatures: Seq<(Seq<char>, Seq<u8>)>,
    pub ca: Option<Seq<char>>,
}

/// No field seen yet.
pub open spec fn no_fields() -> NarInfoFieldsView {
    NarInfoFieldsView {
        store_path: None,
        url: None,
        compression: None,
        file_hash: None,
        file_size: None,
        nar_hash: None,
        nar_size: None,
        references: Seq::empty(),
        deriver: None,
        signatures: Seq::empty(),
        ca: None,
    }
}

/// Parsing a `StorePath` value.
pub open spec fn store_path_value(v: Seq<char>) -> Result<(Seq<u8>, Seq<char>), Option<bool>> {
    if v.len() >= 11 && v.take(11) == store_prefix() {
        let b = v.skip(11);
        let bs = encode_utf8(b);
        if basename_cuts_char(b) {
            Err(None)
        } else {
            match basename_parts(b) {
                Some(p) => Ok(p),
                None => Err(Some(bs.len() < 34 || bs[32] != 45)),
            }
        }
    } else {
        Err(Some(true))
    }
}

/// Parsing the words of a `References` value, in order.
pub open spec fn reference_values(ws: Seq<Seq<char>>) -> Result<Seq<Seq<char>>, Option<Seq<char>>>
    decreases ws.len(),
{
    if ws.len() == 0 {
        Ok(Seq::empty())
    } else {
        let b = ws[0];
        let bs = encode_utf8(b);
        if basename_cuts_char(b) {
            Err(None)
        } else if basename_parts(b) is None {
            Err(Some(b))
        } else {
            match reference_values(ws.skip(1)) {
                Ok(rest) => Ok(seq![b] + rest),
                Err(e) => Err(e),
            }
        }
    }
}

/// What one `key: value` line does to the fields.
#[verifier::opaque]
pub open spec fn apply_field(f: NarInfoFieldsView, key: Seq<char>, v: Seq<char>) -> Scan {
    if key == "StorePath"@ {
        match store_path_value(v) {
            Ok(p) => Scan::Fields(NarInfoFieldsView { store_path: Some(p), ..f }),
            Err(Some(_)) => Scan::Failed(|e: NiphasError| StorePath::parse_result(v, Err(e))),
            Err(None) => Scan::Panics,
        }
    } else if key == "URL"@ {
        Scan::Fields(NarInfoFieldsView { url: Some(v), ..f })
    } else if key == "Compression"@ {
        match compression_named(v) {
            Some(c) => Scan::Fields(NarInfoFieldsView { compression: Some(c), ..f }),
            None => Scan::Failed(parse_error_is("unknown compression: '"@ + v + "'"@)),
        }
    } else if key == "FileHash"@ || key == "NarHash"@ {
        if parse_nix_hash_panics(v) {
            Scan::Panics
        } else {
            match parse_nix_hash_spec(v) {
                Some(h) => if key == "FileHash"@ {
                    Scan::Fields(NarInfoFieldsView { file_hash: Some(h), ..f })
                } else {
                    Scan::Fields(NarInfoFieldsView { nar_hash: Some(h), ..f })
                },
                None => Scan::Failed(parse_error_is(nix_hash_error(v))),
            }
        }
    } else if key == "FileSize"@ || key == "NarSize"@ {
        match parse_u64_spec(v) {
            Some(n) => if key == "FileSize"@ {
                Scan::Fields(NarInfoFieldsView { file_size: Some(n), ..f })
            } else {
                Scan::Fields(NarInfoFieldsView { nar_size: Some(n), ..f })
            },
            None => Scan::Failed(
                parse_error_is(
                    if key == "FileSize"@ {
                        "invalid FileSize: "@
                    } else {
                        "invalid NarSize: "@
                    } + u64_parse_message(v),
                ),
            ),
        }
    } else if key == "References"@ {
        if v.len() == 0 {
            Scan::Fields(f)
        } else {
            match reference_values(words(v)) {
                Ok(rs) => Scan::Fields(NarInfoFieldsView { references: rs, ..f }),
                Err(Some(b)) => Scan::Failed(
                    |e: NiphasError| StorePath::parse_basename_result(b, Err(e)),
                ),
                Err(None) => Scan::Panics,
            }
        }
    } else if key == "Deriver"@ {
        Scan::Fields(NarInfoFieldsView { deriver: Some(v), ..f })
    } else if key == "Sig"@ {
        match parse_signature_spec(v) {
            Some(sig) => Scan::Fields(NarInfoFieldsView { signatures: f.signatures.push(sig), ..f }),
            None => Scan::Failed(
                |e: NiphasError| e matches NiphasError::NarInfoParse(m) && signature_error(v, m@),
            ),
        }
    } else if key == "CA"@ {
        Scan::Fields(NarInfoFieldsView { ca: Some(v), ..f })
    } else {
        Scan::Fields(f)
    }
}

/// What one raw line does to the fields: blank lines are skipped, others must hold
/// `key: value`.
#[verifier::opaque]
pub open spec fn apply_line(f: NarInfoFieldsView, raw: Seq<char>) -> Scan {
    let line = trim(raw);
    if line.len() == 0 {
        Scan::Fields(f)
    } else {
        match first_separator(line) {
            None => Scan::Failed(parse_error_is(malformed_line(line))),
            Some(k) => apply_field(f, line.take(k), line.skip(k + 2)),
        }
    }
}

/// Reading the lines of `s` in order, starting from the fields `f`.
#[verifier::opaque]
pub open spec fn scan_lines(s: Seq<char>, f: NarInfoFieldsView) -> Scan
    decreases s.len(),
{
    match first_index(s, '\n') {
        None => apply_line(f, s),
        Some(k) => if 0 <= k < s.len() {
            match apply_line(f, s.take(k)) {
                Scan::Fields(g) => scan_lines(s.skip(k + 1), g),
                other => other,
            }
        } else {
            Scan::Panics
        },
    }
}

// ---------------------------------------------------------------------------
// Reading the lines
// ---------------------------------------------------------------------------

proof fn lemma_scan_next(s: Seq<char>, f: NarInfoFieldsView, k: int)
    requires
        0 <= k < s.len(),
        first_index(s, '\n') == Some(k),
    ensures
        scan_lines(s, f) == match apply_line(f, s.take(k)) {
            Scan::Fields(g) => scan_lines(s.skip(k + 1), g),
            other => other,
        },
{
    reveal(scan_lines);
}

proof fn lemma_scan_last(s: Seq<char>, f: NarInfoFieldsView)
    requires
        first_index(s, '\n') is None,
    ensures
        scan_lines(s, f) == apply_line(f, s),
{
    reveal(scan_lines);
}

proof fn lemma_apply_line(f: NarInfoFieldsView, raw: Seq<char>)
    ensures
        trim(raw).len() == 0 ==> apply_line(f, raw) == Scan::Fields(f),
        trim(raw).len() > 0 && first_separator(trim(raw)) is None ==> apply_line(f, raw)
            == Scan::Failed(parse_error_is(malformed_line(trim(raw)))),
{
    reveal(apply_line);
}

proof fn lemma_apply_line_field(f: NarInfoFieldsView, raw: Seq<char>, k: int)
    requires
        trim(raw).len() > 0,
        first_separator(trim(raw)) == Some(k),
    ensures
        apply_line(f, raw) == apply_field(f, trim(raw).take(k), trim(raw).skip(k + 2)),
{
    reveal(apply_line);
}


proof fn lemma_first_separator(s: Seq<char>, i: int)
    requires
        separator_at(s, i),
        forall|k: int| 0 <= k < i ==> !separator_at(s, k),
    ensures
        first_separator(s) == Some(i),
{
    reveal(first_separator);
    let j = choose|j: int|
        #[trigger] separator_at(s, j) && forall|k: int| 0 <= k < j ==> !separator_at(s, k);
    assert(separator_at(s, j) && forall|k: int| 0 <= k < j ==> !separator_at(s, k));
    if j < i {
        assert(!separator_at(s, j));
    } else if j > i {
        assert(!separator_at(s, i));
    }
}

/// Finds the first `": "` in `v[from..to]`.
fn find_separator(v: &[char], from: usize, to: usize) -> (r: Option<usize>)
    requires
        from <= to <= v@.len(),
    ensures
        match r {
            Some(i) => from <= i && i + 1 < to && first_separator(v@.subrange(from as int, to as int))
                == Some(i - from),
            None => first_separator(v@.subrange(from as int, to as int)) is None,
        },
{
    let ghost s = v@.subrange(from as int, to as int);
    let mut i = from;
    while to - i > 1
        invariant
            from <= i,
            i <= to,
            to <= v@.len(),
            s == v@.subrange(from as int, to as int),
            forall|k: int| 0 <= k < i - from ==> !separator_at(s, k),
        decreases to - i,
    {
        if v[i] == ':' && v[i + 1] == ' ' {
            proof {
                assert(separator_at(s, i - from));
                lemma_first_separator(s, i - from);
            }
            return Some(i);
        }
        i += 1;
    }
    proof {
        reveal(first_separator);
        assert forall|k: int| !#[trigger] separator_at(s, k) by {
            if 0 <= k < i - from {
            }
        }
    }
    None
}

proof fn lemma_trim_start_skip(s: Seq<char>, p: int, q: int)
    requires
        0 <= p <= q <= s.len(),
        forall|k: int| p <= k < q ==> is_whitespace(s[k]),
        q == s.len() || !is_whitespace(s[q]),
    ensures
        trim_start(s.skip(p)) == s.skip(q),
    decreases q - p,
{
    if p < q {
        assert(s.skip(p).skip(1) =~= s.skip(p + 1));
        lemma_trim_start_skip(s, p + 1, q);
    } else if q < s.len() {
        assert(s.skip(q)[0] == s[q]);
    }
}

proof fn lemma_word_end(t: Seq<char>, e: int)
    requires
        0 <= e <= t.len(),
        forall|k: int| 0 <= k < e ==> !is_whitespace(t[k]),
        e == t.len() || is_whitespace(t[e]),
    ensures
        word_end(t) == e,
    decreases e,
{
    if e > 0 {
        lemma_word_end(t.skip(1), e - 1);
    }
}

proof fn lemma_trim_start_len(s: Seq<char>)
    ensures
        trim_start(s).len() <= s.len(),
    decreases s.len(),
{
    if s.len() > 0 && is_whitespace(s[0]) {
        lemma_trim_start_len(s.skip(1));
    }
}

/// The words of `v[from..to]`, as strings.
pub fn split_words(v: &[char], from: usize, to: usize) -> (r: Vec<String>)
    requires
        from <= to <= v@.len(),
    ensures
        r@.len() == words(v@.subrange(from as int, to as int)).len(),
        forall|i: int|
            0 <= i < r@.len() ==> #[trigger] r@[i]@ == words(v@.subrange(from as int, to as int))[i],
{
    let ghost s = v@.subrange(from as int, to as int);
    let mut out: Vec<String> = Vec::new();
    let ghost mut done: Seq<Seq<char>> = Seq::empty();
    let mut p = from;
    proof {
        assert(s.skip(0) =~= s);
    }
    while p < to
        invariant
            from <= p <= to <= v@.len(),
            s == v@.subrange(from as int, to as int),
            out@.len() == done.len(),
            forall|i: int| 0 <= i < out@.len() ==> #[trigger] out@[i]@ == done[i],
            done + words(s.skip(p - from)) == words(s),
        decreases to - p,
    {
        let mut q = p;
        while q < to && crate::text::whitespace(v[q])
            invariant
                p <= q <= to <= v@.len(),
                forall|k: int| p <= k < q ==> is_whitespace(v@[k]),
            decreases to - q,
        {
            q += 1;
        }
        proof {
            lemma_trim_start_skip(s, p - from, q - from);
        }
        if q == to {
            proof {
                assert(s.skip(q - from).len() == 0);
                assert(words(s.skip(p - from)) =~= Seq::<Seq<char>>::empty());
                assert(done + words(s.skip(to - from)) =~= done);
            }
            p = q;
        } else {
            let mut e = q;
            while e < to && !crate::text::whitespace(v[e])
                invariant
                    q <= e <= to <= v@.len(),
                    forall|k: int| q <= k < e ==> !is_whitespace(v@[k]),
                decreases to - e,
            {
                e += 1;
            }
            let w = crate::text::string_of(v, q, e);
            proof {
                let t = s.skip(q - from);
                lemma_word_end(t, e - q);
                lemma_trim_start_len(s.skip(p - from));
                assert(t.take(e - q) =~= w@);
                assert(t.skip(e - q) =~= s.skip(e - from));
                assert(words(s.skip(p - from)) == seq![w@] + words(s.skip(e - from)));
                assert(done.push(w@) + words(s.skip(e - from)) =~= done + words(s.skip(p - from)));
                done = done.push(w@);
            }
            out.push(w);
            p = e;
        }
    }
    proof {
        assert(s.skip(to - from).len() == 0);
        assert(words(s.skip(to - from)) =~= Seq::<Seq<char>>::empty());
        assert(done =~= words(s));
    }
    out
}

/// The reference strings of `rs`.
pub open spec fn reference_texts(rs: Seq<StorePathRef>) -> Seq<Seq<char>> {
    Seq::new(rs.len(), |i: int| rs[i]@)
}

/// Parses every word as a store path reference, stopping at the first refusal.
fn parse_references(ws: &Vec<String>) -> (r: Result<Vec<StorePathRef>, NiphasError>)
    requires
        !(reference_values(Seq::new(ws@.len(), |i: int| ws@[i]@)) matches Err(None)),
    ensures
        match reference_values(Seq::new(ws@.len(), |i: int| ws@[i]@)) {
            Ok(rs) => r matches Ok(v) && reference_texts(v@) == rs,
            Err(Some(b)) => r matches Err(e) && StorePath::parse_basename_result(b, Err(e)),
            Err(None) => false,
        },
{
    let ghost all = Seq::new(ws@.len(), |i: int| ws@[i]@);
    let mut out: Vec<StorePathRef> = Vec::new();
    let mut i: usize = 0;
    proof {
        assert(all.skip(0) =~= all);
    }
    while i < ws.len()
        invariant
            i <= ws@.len(),
            all == Seq::new(ws@.len(), |j: int| ws@[j]@),
            !(reference_values(all) matches Err(None)),
            out@.len() == i,
            forall|j: int| 0 <= j < i ==> #[trigger] out@[j]@ == all[j],
            reference_values(all) == match reference_values(all.skip(i as int)) {
                Ok(rest) => Ok(all.take(i as int) + rest),
                Err(e) => Err(e),
            },
        decreases ws@.len() - i,
    {
        let ghost rest = all.skip(i as int);
        proof {
            assert(rest[0] == ws@[i as int]@);
            assert(rest.skip(1) =~= all.skip(i + 1));
        }
        match StorePathRef::parse(ws[i].as_str()) {
            Ok(p) => {
                proof {
                    assert(all.take(i as int) + seq![all[i as int]] =~= all.take(i + 1));
                    if let Ok(tail) = reference_values(all.skip(i + 1)) {
                        assert(all.take(i as int) + (seq![all[i as int]] + tail) =~= all.take(i + 1)
                            + tail);
                    }
                }
                out.push(p);
            },
            Err(e) => {
                return Err(e);
            },
        }
        i += 1;
    }
    proof {
        assert(all.skip(i as int) =~= Seq::<Seq<char>>::empty());
        assert(all.take(i as int) =~= all);
        assert(all.take(i as int) + Seq::<Seq<char>>::empty() =~= all);
        assert(reference_texts(out@) =~= all);
    }
    Ok(out)
}

/// The signatures of `sigs`, as values.
pub open spec fn signature_views(sigs: Seq<NarSignature>) -> Seq<(Seq<char>, Seq<u8>)> {
    Seq::new(sigs.len(), |i: int| (sigs[i].key_name@, sigs[i].signature@))
}

/// The text an optional string holds.
pub open spec fn opt_text(o: Option<String>) -> Option<Seq<char>> {
    match o {
        Some(s) => Some(s@),
        None => None,
    }
}

/// The fields read so far, as executable values.
struct Fields {
    store_path: Option<StorePath>,
    url: Option<String>,
    compression: Option<Compression>,
    file_hash: Option<NixHash>,
    file_size: Option<u64>,
    nar_hash: Option<NixHash>,
    nar_size: Option<u64>,
    references: Vec<StorePathRef>,
    deriver: Option<String>,
    signatures: Vec<NarSignature>,
    ca: Option<String>,
}

impl Fields {
    spec fn view(self) -> NarInfoFieldsView {
        NarInfoFieldsView {
            store_path: match self.store_path {
                Some(sp) => Some((sp.hash@, sp.name@)),
                None => None,
            },
            url: opt_text(self.url),
            compression: self.compression,
            file_hash: match self.file_hash {
                Some(h) => Some((h.algo, h.digest@)),
                None => None,
            },
            file_size: self.file_size,
            nar_hash: match self.nar_hash {
                Some(h) => Some((h.algo, h.digest@)),
                None => None,
            },
            nar_size: self.nar_size,
            references: reference_texts(self.references@),
            deriver: opt_text(self.deriver),
            signatures: signature_views(self.signatures@),
            ca: opt_text(self.ca),
        }
    }
}

fn copy_text(s: &str) -> (r: String)
    ensures
        r@ == s@,
{
    let mut r = String::new();
    push_str(&mut r, s);
    r
}

/// Applies one `key: value` line to the fields.
#[verifier::rlimit(40)]
fn apply_field_exec(f: &mut Fields, key: &str, value: &str) -> (r: Result<(), NiphasError>)
    requires
        !(apply_field(old(f).view(), key@, value@) is Panics),
    ensures
        match apply_field(old(f).view(), key@, value@) {
            Scan::Fields(g) => r is Ok && final(f).view() == g,
            Scan::Failed(p) => r matches Err(e) && p(e),
            Scan::Panics => false,
        },
{
    reveal(apply_field);
    let ghost old_f = f.view();
    if crate::text::str_eq(key, "StorePath") {
        match StorePath::parse(value) {
            Ok(sp) => {
                f.store_path = Some(sp);
                proof {
                    assert(f.view() =~= NarInfoFieldsView { store_path: f.view().store_path, ..old_f });
                }
                Ok(())
            },
            Err(e) => Err(e),
        }
    } else if crate::text::str_eq(key, "URL") {
        f.url = Some(copy_text(value));
        Ok(())
    } else if crate::text::str_eq(key, "Compression") {
        match Compression::parse(value) {
            Ok(c) => {
                f.compression = Some(c);
                Ok(())
            },
            Err(e) => Err(e),
        }
    } else if crate::text::str_eq(key, "FileHash") {
        match NixHash::parse(value) {
            Ok(h) => {
                f.file_hash = Some(h);
                Ok(())
            },
            Err(e) => Err(e),
        }
    } else if crate::text::str_eq(key, "NarHash") {
        match NixHash::parse(value) {
            Ok(h) => {
                f.nar_hash = Some(h);
                Ok(())
            },
            Err(e) => Err(e),
        }
    } else if crate::text::str_eq(key, "FileSize") {
        let v = crate::text::chars_of(value);
        match crate::text::parse_u64(&v, 0, v.len()) {
            Some(n) => {
                f.file_size = Some(n);
                proof {
                    assert(v@.subrange(0, v@.len() as int) =~= value@);
                }
                Ok(())
            },
            None => {
                proof {
                    assert(v@.subrange(0, v@.len() as int) =~= value@);
                }
                let mut msg = String::new();
                push_str(&mut msg, "invalid FileSize: ");
                let ghost head = msg@;
                let cause = crate::text::u64_parse_error(value);
                push_str(&mut msg, cause.as_str());
                proof {
                    assert(head =~= "invalid FileSize: "@);
                }
                Err(NiphasError::NarInfoParse(msg))
            },
        }
    } else if crate::text::str_eq(key, "NarSize") {
        let v = crate::text::chars_of(value);
        match crate::text::parse_u64(&v, 0, v.len()) {
            Some(n) => {
                f.nar_size = Some(n);
                proof {
                    assert(v@.subrange(0, v@.len() as int) =~= value@);
                }
                Ok(())
            },
            None => {
                proof {
                    assert(v@.subrange(0, v@.len() as int) =~= value@);
                }
                let mut msg = String::new();
                push_str(&mut msg, "invalid NarSize: ");
                let ghost head = msg@;
                let cause = crate::text::u64_parse_error(value);
                push_str(&mut msg, cause.as_str());
                proof {
                    assert(head =~= "invalid NarSize: "@);
                }
                Err(NiphasError::NarInfoParse(msg))
            },
        }
    } else if crate::text::str_eq(key, "References") {
        let v = crate::text::chars_of(value);
        if v.len() == 0 {
            return Ok(());
        }
        let ws = split_words(&v, 0, v.len());
        proof {
            assert(v@.subrange(0, v@.len() as int) =~= value@);
            assert(Seq::new(ws@.len(), |i: int| ws@[i]@) =~= words(value@));
        }
        match parse_references(&ws) {
            Ok(rs) => {
                f.references = rs;
                Ok(())
            },
            Err(e) => Err(e),
        }
    } else if crate::text::str_eq(key, "Deriver") {
        f.deriver = Some(copy_text(value));
        Ok(())
    } else if crate::text::str_eq(key, "Sig") {
        match NarSignature::parse(value) {
            Ok(sig) => {
                let ghost before = f.signatures@;
                f.signatures.push(sig);
                proof {
                    assert(signature_views(f.signatures@) =~= signature_views(before).push(
                        (sig.key_name@, sig.signature@),
                    ));
                }
                Ok(())
            },
            Err(e) => Err(e),
        }
    } else if crate::text::str_eq(key, "CA") {
        f.ca = Some(copy_text(value));
        Ok(())
    } else {
        Ok(())
    }
}

/// Applies one raw line `v[pos..end]` to the fields.
fn process_line(f: &mut Fields, v: &Vec<char>, pos: usize, end: usize) -> (r: Result<(), NiphasError>)
    requires
        pos <= end <= v@.len(),
        !(apply_line(old(f).view(), v@.subrange(pos as int, end as int)) is Panics),
    ensures
        match apply_line(old(f).view(), v@.subrange(pos as int, end as int)) {
            Scan::Fields(g) => r is Ok && final(f).view() == g,
            Scan::Failed(p) => r matches Err(e) && p(e),
            Scan::Panics => false,
        },
{
    let ghost raw = v@.subrange(pos as int, end as int);
    proof {
        lemma_apply_line(f.view(), raw);
    }
    let (a, b) = crate::text::trim_range(v, pos, end);
    let ghost t = v@.subrange(a as int, b as int);
    if a < b {
        let sep = match find_separator(v, a, b) {
            Some(k) => k,
            None => {
                let mut msg = String::new();
                push_str(&mut msg, "malformed line: '");
                let l = crate::text::string_of(v, a, b);
                push_str(&mut msg, l.as_str());
                push_str(&mut msg, "'");
                return Err(NiphasError::NarInfoParse(msg));
            },
        };
        let key = crate::text::string_of(v, a, sep);
        let value = crate::text::string_of(v, sep + 2, b);
        proof {
            assert(t.take(sep - a) =~= key@);
            assert(t.skip(sep - a + 2) =~= value@);
            lemma_apply_line_field(f.view(), raw, sep - a);
        }
        apply_field_exec(f, key.as_str(), value.as_str())
    } else {
        Ok(())
    }
}

fn missing_field(name: &str) -> (e: NiphasError)
    ensures
        e matches NiphasError::NarInfoParse(m) && m@ == "missing "@ + name@,
{
    let mut m = String::new();
    push_str(&mut m, "missing ");
    push_str(&mut m, name);
    NiphasError::NarInfoParse(m)
}

// ---------------------------------------------------------------------------
// Inputs the parser cannot take
// ---------------------------------------------------------------------------

/// Whether reading the words of a `References` value would cut a character in two
/// before a word is refused.
fn references_panic(v: &[char]) -> (r: bool)
    ensures
        r == (reference_values(words(v@)) == Err::<Seq<Seq<char>>, Option<Seq<char>>>(None)),
{
    let ws = split_words(v, 0, v.len());
    let ghost all = words(v@);
    proof {
        assert(v@.subrange(0, v@.len() as int) =~= v@);
        assert(all.skip(0) =~= all);
    }
    let mut i: usize = 0;
    while i < ws.len()
        invariant
            i <= ws@.len(),
            ws@.len() == all.len(),
            all == words(v@),
            forall|j: int| 0 <= j < ws@.len() ==> #[trigger] ws@[j]@ == all[j],
            (reference_values(all) == Err::<Seq<Seq<char>>, Option<Seq<char>>>(None)) == (
            reference_values(all.skip(i as int)) == Err::<Seq<Seq<char>>, Option<Seq<char>>>(None)),
        decreases ws@.len() - i,
    {
        let w = ws[i].as_str();
        let ghost rest = all.skip(i as int);
        proof {
            assert(rest[0] == all[i as int]);
            assert(rest.skip(1) =~= all.skip(i + 1));
        }
        if crate::store_path::basename_would_panic(w) {
            return true;
        }
        match StorePath::parse_basename(w) {
            Ok(_) => {},
            Err(_) => {
                return false;
            },
        }
        i += 1;
    }
    proof {
        assert(all.skip(i as int) =~= Seq::<Seq<char>>::empty());
    }
    false
}

proof fn lemma_hash_field_panics(f: NarInfoFieldsView, key: Seq<char>, v: Seq<char>)
    requires
        key == "FileHash"@ || key == "NarHash"@,
    ensures
        (apply_field(f, key, v) is Panics) == parse_nix_hash_panics(v),
{
    reveal(apply_field);
    reveal_strlit("StorePath");
    reveal_strlit("URL");
    reveal_strlit("Compression");
    reveal_strlit("FileHash");
    reveal_strlit("NarHash");
    assert("StorePath"@.len() == 9);
    assert("URL"@.len() == 3);
    assert("Compression"@.len() == 11);
    assert("FileHash"@.len() == 8);
    assert("NarHash"@.len() == 7);
    assert(key != "StorePath"@);
    assert(key != "URL"@);
    assert(key != "Compression"@);
}

proof fn lemma_references_field_panics(f: NarInfoFieldsView, v: Seq<char>)
    ensures
        (apply_field(f, "References"@, v) is Panics) == (v.len() > 0 && reference_values(words(v))
            == Err::<Seq<Seq<char>>, Option<Seq<char>>>(None)),
{
    reveal(apply_field);
    reveal_strlit("StorePath");
    reveal_strlit("URL");
    reveal_strlit("Compression");
    reveal_strlit("FileHash");
    reveal_strlit("NarHash");
    reveal_strlit("FileSize");
    reveal_strlit("NarSize");
    reveal_strlit("References");
    assert("StorePath"@.len() == 9);
    assert("URL"@.len() == 3);
    assert("Compression"@.len() == 11);
    assert("FileHash"@.len() == 8);
    assert("NarHash"@.len() == 7);
    assert("FileSize"@.len() == 8);
    assert("NarSize"@.len() == 7);
    assert("References"@.len() == 10);
    assert("References"@ != "StorePath"@);
    assert("References"@ != "URL"@);
    assert("References"@ != "Compression"@);
    assert("References"@ != "FileHash"@);
    assert("References"@ != "NarHash"@);
    assert("References"@ != "FileSize"@);
    assert("References"@ != "NarSize"@);
}

/// Whether a `key: value` line would make a value parser panic.
fn field_panics(key: &str, value: &str) -> (r: bool)
    ensures
        forall|f: NarInfoFieldsView| r == (#[trigger] apply_field(f, key@, value@) is Panics),
{
    if crate::text::str_eq(key, "StorePath") {
        let r = crate::store_path::parse_would_panic(value);
        proof {
            assert forall|f: NarInfoFieldsView| r == (#[trigger] apply_field(f, key@, value@) is Panics) by {
                reveal(apply_field);
                assert((store_path_value(value@) == Err::<(Seq<u8>, Seq<char>), Option<bool>>(None))
                    == crate::store_path::store_path_parse_panics(value@));
            }
        }
        r
    } else if crate::text::str_eq(key, "FileHash") || crate::text::str_eq(key, "NarHash") {
        let r = crate::hash::nix_hash_parse_panics(value);
        proof {
            assert forall|f: NarInfoFieldsView| r == (#[trigger] apply_field(f, key@, value@) is Panics) by {
                lemma_hash_field_panics(f, key@, value@);
            }
        }
        r
    } else if crate::text::str_eq(key, "References") {
        let v = crate::text::chars_of(value);
        if v.len() == 0 {
            proof {
                assert forall|f: NarInfoFieldsView| !(#[trigger] apply_field(f, key@, value@) is Panics) by {
                    lemma_references_field_panics(f, value@);
                }
            }
            false
        } else {
            let r = references_panic(&v);
            proof {
                assert forall|f: NarInfoFieldsView| r == (#[trigger] apply_field(f, key@, value@) is Panics) by {
                    lemma_references_field_panics(f, value@);
                    assert(v@ =~= value@);
                }
            }
            r
        }
    } else {
        proof {
            assert forall|f: NarInfoFieldsView| !(#[trigger] apply_field(f, key@, value@) is Panics) by {
                reveal(apply_field);
            }
        }
        false
    }
}

/// Whether the raw line `v[pos..end]` would make a value parser panic.
fn line_panics(v: &Vec<char>, pos: usize, end: usize) -> (r: bool)
    requires
        pos <= end <= v@.len(),
    ensures
        forall|f: NarInfoFieldsView|
            r == (#[trigger] apply_line(f, v@.subrange(pos as int, end as int)) is Panics),
{
    let ghost raw = v@.subrange(pos as int, end as int);
    let (a, b) = crate::text::trim_range(v, pos, end);
    let ghost t = v@.subrange(a as int, b as int);
    if a < b {
        match find_separator(v, a, b) {
            Some(sep) => {
                let key = crate::text::string_of(v, a, sep);
                let value = crate::text::string_of(v, sep + 2, b);
                proof {
                    assert(t.take(sep - a) =~= key@);
                    assert(t.skip(sep - a + 2) =~= value@);
                    assert forall|f: NarInfoFieldsView| apply_line(f, raw) == apply_field(
                        f,
                        key@,
                        value@,
                    ) by {
                        lemma_apply_line_field(f, raw, sep - a);
                    }
                }
                field_panics(key.as_str(), value.as_str())
            },
            None => {
                proof {
                    assert forall|f: NarInfoFieldsView| !(apply_line(f, raw) is Panics) by {
                        lemma_apply_line(f, raw);
                    }
                }
                false
            },
        }
    } else {
        proof {
            assert forall|f: NarInfoFieldsView| !(apply_line(f, raw) is Panics) by {
                lemma_apply_line(f, raw);
            }
        }
        false
    }
}

/// Whether `NarInfo::parse` cannot take `input`: a value parser would cut a character in
/// two or index past the base32 decoder's buffer before any line is refused (what
/// `narinfo_panics` says).
#[verifier::rlimit(40)]
pub fn narinfo_parse_panics(input: &str) -> (r: bool)
    ensures
        r == narinfo_panics(input@),
{
    let v = crate::text::chars_of(input);
    let mut f = Fields {
        store_path: None,
        url: None,
        compression: None,
        file_hash: None,
        file_size: None,
        nar_hash: None,
        nar_size: None,
        references: Vec::new(),
        deriver: None,
        signatures: Vec::new(),
        ca: None,
    };
    proof {
        assert(f.view().references =~= no_fields().references);
        assert(f.view().signatures =~= no_fields().signatures);
        assert(v@.skip(0) =~= input@);
    }
    let mut pos: usize = 0;
    loop
        invariant_except_break
            scan_lines(input@, no_fields()) == scan_lines(v@.skip(pos as int), f.view()),
        invariant
            pos <= v@.len(),
            v@ == input@,
        ensures
            !(scan_lines(input@, no_fields()) is Panics),
        decreases v@.len() - pos,
    {
        let ghost rest = v@.skip(pos as int);
        let nl = crate::text::find_char(&v, pos, v.len(), '\n');
        let end = match nl {
            Some(k) => k,
            None => v.len(),
        };
        proof {
            match nl {
                Some(k) => {
                    crate::text::lemma_first_index(rest, '\n', k - pos);
                    assert(rest.take(k - pos) =~= v@.subrange(pos as int, k as int));
                    assert(rest.skip(k - pos + 1) =~= v@.skip(k + 1));
                    lemma_scan_next(rest, f.view(), k - pos);
                },
                None => {
                    crate::text::lemma_first_index_none(rest, '\n');
                    assert(rest =~= v@.subrange(pos as int, v@.len() as int));
                    lemma_scan_last(rest, f.view());
                },
            }
        }
        if line_panics(&v, pos, end) {
            proof {
                assert(apply_line(f.view(), v@.subrange(pos as int, end as int)) is Panics);
            }
            return true;
        }
        match process_line(&mut f, &v, pos, end) {
            Ok(()) => {},
            Err(_) => {
                return false;
            },
        }
        match nl {
            Some(k) => {
                pos = k + 1;
            },
            None => {
                break;
            },
        }
    }
    false
}

/// Parsed `.narinfo` file from a binary cache.
#[derive(Debug, Clone, PartialEq)]
pub struct NarInfo {
    pub store_path: StorePath,
    pub url: String,
    pub compression: Compression,
    pub file_hash: NixHash,
    pub file_size: u64,
    pub nar_hash: NixHash,
    pub nar_size: u64,
    pub references: Vec<StorePathRef>,
    pub deriver: Option<String>,
    pub signatures: Vec<NarSignature>,
    pub ca: Option<String>,
}

/// The first required field that `f` lacks, if any.
pub open spec fn first_missing(f: NarInfoFieldsView) -> Option<Seq<char>> {
    if f.store_path is None {
        Some("StorePath"@)
    } else if f.url is None {
        Some("URL"@)
    } else if f.compression is None {
        Some("Compression"@)
    } else if f.file_hash is None {
        Some("FileHash"@)
    } else if f.file_size is None {
        Some("FileSize"@)
    } else if f.nar_hash is None {
        Some("NarHash"@)
    } else if f.nar_size is None {
        Some("NarSize"@)
    } else {
        None
    }
}

/// The keys a `.narinfo` line may have that are read; every other key is ignored.
pub open spec fn known_key(key: Seq<char>) -> bool {
    key == "StorePath"@ || key == "URL"@ || key == "Compression"@ || key == "FileHash"@ || key
        == "NarHash"@ || key == "FileSize"@ || key == "NarSize"@ || key == "References"@ || key
        == "Deriver"@ || key == "Sig"@ || key == "CA"@
}

/// The line rules of a `.narinfo`: blank lines are skipped; any other line without
/// `": "` is refused; a line with an unknown key changes nothing; a line of a
/// single-valued key replaces what an earlier one gave (the last line wins); a `Sig` line
/// adds its signature after the earlier ones; and a file lacking a required key is
/// refused with the first one missing (see `NarInfo::parse`).
pub proof fn lemma_narinfo_line_rules(f: NarInfoFieldsView, raw: Seq<char>, key: Seq<char>, v: Seq<char>)
    ensures
        trim(raw).len() == 0 ==> apply_line(f, raw) == Scan::Fields(f),
        trim(raw).len() > 0 && first_separator(trim(raw)) is None ==> apply_line(f, raw) is Failed,
        !known_key(key) ==> apply_field(f, key, v) == Scan::Fields(f),
        apply_field(f, "URL"@, v) == Scan::Fields(NarInfoFieldsView { url: Some(v), ..f }),
        apply_field(f, "Deriver"@, v) == Scan::Fields(NarInfoFieldsView { deriver: Some(v), ..f }),
        apply_field(f, "CA"@, v) == Scan::Fields(NarInfoFieldsView { ca: Some(v), ..f }),
        compression_named(v) matches Some(c) ==> apply_field(f, "Compression"@, v) == Scan::Fields(
            NarInfoFieldsView { compression: Some(c), ..f },
        ),
        parse_u64_spec(v) matches Some(n) ==> apply_field(f, "FileSize"@, v) == Scan::Fields(
            NarInfoFieldsView { file_size: Some(n), ..f },
        ) && apply_field(f, "NarSize"@, v) == Scan::Fields(NarInfoFieldsView { nar_size: Some(n), ..f }),
        parse_signature_spec(v) matches Some(sig) ==> apply_field(f, "Sig"@, v) == Scan::Fields(
            NarInfoFieldsView { signatures: f.signatures.push(sig), ..f },
        ),
{
    reveal(apply_line);
    reveal(apply_field);
    reveal_strlit("StorePath");
    reveal_strlit("URL");
    reveal_strlit("Compression");
    reveal_strlit("FileHash");
    reveal_strlit("NarHash");
    reveal_strlit("FileSize");
    reveal_strlit("NarSize");
    reveal_strlit("References");
    reveal_strlit("Deriver");
    reveal_strlit("Sig");
    reveal_strlit("CA");
    assert("StorePath"@.len() == 9 && "URL"@.len() == 3 && "Compression"@.len() == 11
        && "FileHash"@.len() == 8 && "NarHash"@.len() == 7 && "FileSize"@.len() == 8
        && "NarSize"@.len() == 7 && "References"@.len() == 10 && "Deriver"@.len() == 7
        && "Sig"@.len() == 3 && "CA"@.len() == 2);
    assert("URL"@[0] != "Sig"@[0]);
    assert("FileSize"@[4] != "FileHash"@[4]);
    assert("NarSize"@[3] != "NarHash"@[3]);
    assert("FileSize"@ != "FileHash"@ && "NarSize"@ != "NarHash"@ && "NarSize"@ != "FileSize"@);
    assert("Deriver"@[0] != "NarHash"@[0] && "Deriver"@[0] != "NarSize"@[0]);
}

/// What `NarInfo::parse` gives for `input`: the lines read in order from no fields; a
/// refused line gives its error, a missing required key `missing <key>`, and otherwise
/// the `.narinfo` holds exactly the fields read.
pub open spec fn narinfo_parse_result(input: Seq<char>, r: Result<NarInfo, NiphasError>) -> bool {
    match scan_lines(input, no_fields()) {
        Scan::Fields(f) => match first_missing(f) {
            None => r matches Ok(n) && n.fields() == f,
            Some(name) => r matches Err(NiphasError::NarInfoParse(m)) && m@ == "missing "@ + name,
        },
        Scan::Failed(p) => r matches Err(e) && p(e),
        Scan::Panics => false,
    }
}

// ---------------------------------------------------------------------------
// A whole file, line by line
// ---------------------------------------------------------------------------

/// The text of `lines`, joined by newlines.
pub open spec fn lines_text(lines: Seq<Seq<char>>) -> Seq<char>
    decreases lines.len(),
{
    if lines.len() == 0 {
        Seq::empty()
    } else if lines.len() == 1 {
        lines[0]
    } else {
        lines[0] + seq!['\n'] + lines_text(lines.skip(1))
    }
}

/// No line holds a newline.
pub open spec fn single_lines(lines: Seq<Seq<char>>) -> bool {
    forall|i: int, j: int| 0 <= i < lines.len() && 0 <= j < lines[i].len() ==> #[trigger] lines[i][j] != '\n'
}

/// Reading `lines` one after the other from the fields `f`, up to the first that is refused.
pub open spec fn scan_each(lines: Seq<Seq<char>>, f: NarInfoFieldsView) -> Scan
    decreases lines.len(),
{
    if lines.len() == 0 {
        Scan::Fields(f)
    } else {
        match apply_line(f, lines[0]) {
            Scan::Fields(g) => scan_each(lines.skip(1), g),
            other => other,
        }
    }
}

/// The key of a `key: value` line; `None` for a blank or malformed line.
pub open spec fn line_key(raw: Seq<char>) -> Option<Seq<char>> {
    if trim(raw).len() == 0 {
        None
    } else {
        match first_separator(trim(raw)) {
            Some(k) => Some(trim(raw).take(k)),
            None => None,
        }
    }
}

/// The value of a `key: value` line.
pub open spec fn line_value(raw: Seq<char>) -> Seq<char> {
    match first_separator(trim(raw)) {
        Some(k) => trim(raw).skip(k + 2),
        None => Seq::empty(),
    }
}

/// A line that is neither blank nor `key: value`.
pub open spec fn malformed(raw: Seq<char>) -> bool {
    trim(raw).len() > 0 && first_separator(trim(raw)) is None
}

/// The value of the last of `lines` with the key `key`.
pub open spec fn last_value(lines: Seq<Seq<char>>, key: Seq<char>) -> Option<Seq<char>>
    decreases lines.len(),
{
    if lines.len() == 0 {
        None
    } else {
        match last_value(lines.skip(1), key) {
            Some(v) => Some(v),
            None => if line_key(lines[0]) == Some(key) {
                Some(line_value(lines[0]))
            } else {
                None
            },
        }
    }
}

/// The signatures of the `Sig` lines, in order.
pub open spec fn sig_values(lines: Seq<Seq<char>>) -> Seq<(Seq<char>, Seq<u8>)>
    decreases lines.len(),
{
    if lines.len() == 0 {
        Seq::empty()
    } else if line_key(lines[0]) == Some("Sig"@) && parse_signature_spec(line_value(lines[0])) is Some {
        seq![parse_signature_spec(line_value(lines[0])).unwrap()] + sig_values(lines.skip(1))
    } else {
        sig_values(lines.skip(1))
    }
}

/// The keys every `.narinfo` must have.
pub open spec fn required_key(key: Seq<char>) -> bool {
    key == "StorePath"@ || key == "URL"@ || key == "Compression"@ || key == "FileHash"@ || key
        == "FileSize"@ || key == "NarHash"@ || key == "NarSize"@
}

/// Whether the fields hold a value for the required key `key`.
pub open spec fn has_field(f: NarInfoFieldsView, key: Seq<char>) -> bool {
    if key == "StorePath"@ {
        f.store_path is Some
    } else if key == "URL"@ {
        f.url is Some
    } else if key == "Compression"@ {
        f.compression is Some
    } else if key == "FileHash"@ {
        f.file_hash is Some
    } else if key == "FileSize"@ {
        f.file_size is Some
    } else if key == "NarHash"@ {
        f.nar_hash is Some
    } else if key == "NarSize"@ {
        f.nar_size is Some
    } else {
        true
    }
}

proof fn lemma_apply_line_by_key(f: NarInfoFieldsView, raw: Seq<char>)
    ensures
        apply_line(f, raw) == match line_key(raw) {
            Some(k) => apply_field(f, k, line_value(raw)),
            None => if malformed(raw) {
                Scan::Failed(parse_error_is(malformed_line(trim(raw))))
            } else {
                Scan::Fields(f)
            },
        },
{
    reveal(apply_line);
}

/// A line changes only the field of its own key.
proof fn lemma_apply_field_frame(f: NarInfoFieldsView, key: Seq<char>, v: Seq<char>)
    ensures
        apply_field(f, key, v) matches Scan::Fields(g) ==> {
            &&& key != "StorePath"@ ==> g.store_path == f.store_path
            &&& key != "URL"@ ==> g.url == f.url
            &&& key != "Compression"@ ==> g.compression == f.compression
            &&& key != "FileHash"@ ==> g.file_hash == f.file_hash
            &&& key != "FileSize"@ ==> g.file_size == f.file_size
            &&& key != "NarHash"@ ==> g.nar_hash == f.nar_hash
            &&& key != "NarSize"@ ==> g.nar_size == f.nar_size
            &&& key != "Deriver"@ ==> g.deriver == f.deriver
            &&& key != "Sig"@ ==> g.signatures == f.signatures
        },
{
    reveal(apply_field);
}

proof fn lemma_apply_sig_field(f: NarInfoFieldsView, v: Seq<char>)
    ensures
        apply_field(f, "Sig"@, v) is Fields ==> parse_signature_spec(v) is Some,
{
    reveal(apply_field);
    reveal_strlit("StorePath");
    reveal_strlit("URL");
    reveal_strlit("Compression");
    reveal_strlit("FileHash");
    reveal_strlit("NarHash");
    reveal_strlit("FileSize");
    reveal_strlit("NarSize");
    reveal_strlit("References");
    reveal_strlit("Deriver");
    reveal_strlit("Sig");
    assert("URL"@[0] != "Sig"@[0]);
    assert("Sig"@.len() == 3 && "StorePath"@.len() == 9 && "Compression"@.len() == 11
        && "FileHash"@.len() == 8 && "NarHash"@.len() == 7 && "FileSize"@.len() == 8
        && "NarSize"@.len() == 7 && "References"@.len() == 10 && "Deriver"@.len() == 7);
}

proof fn lemma_scan_each_text(lines: Seq<Seq<char>>, f: NarInfoFieldsView)
    requires
        lines.len() > 0,
        single_lines(lines),
    ensures
        scan_lines(lines_text(lines), f) == scan_each(lines, f),
    decreases lines.len(),
{
    let l0 = lines[0];
    let s = lines_text(lines);
    if lines.len() == 1 {
        crate::text::lemma_first_index_some(l0, '\n');
        if first_index(l0, '\n') is Some {
            let k = first_index(l0, '\n').unwrap();
            assert(lines[0][k] != '\n');
        }
        lemma_scan_last(l0, f);
        assert(lines.skip(1).len() == 0);
        if let Scan::Fields(g) = apply_line(f, l0) {
            assert(scan_each(lines.skip(1), g) == Scan::Fields(g));
        }
    } else {
        let rest = lines.skip(1);
        assert(single_lines(rest)) by {
            assert forall|i: int, j: int| 0 <= i < rest.len() && 0 <= j < rest[i].len() implies #[trigger] rest[i][j]
                != '\n' by {
                assert(rest[i] == lines[i + 1]);
                assert(lines[i + 1][j] != '\n');
            }
        }
        let n = l0.len() as int;
        assert(s == l0 + seq!['\n'] + lines_text(rest));
        assert(s[n] == '\n');
        crate::text::lemma_first_index_some(s, '\n');
        let k = first_index(s, '\n').unwrap();
        if k < n {
            assert(s[k] == l0[k]);
            assert(lines[0][k] != '\n');
        }
        if k > n {
            assert(s[n] != '\n');
        }
        assert(k == n);
        assert(s.take(k) =~= l0);
        assert(s.skip(k + 1) =~= lines_text(rest));
        lemma_scan_next(s, f, k);
        if let Scan::Fields(g) = apply_line(f, l0) {
            lemma_scan_each_text(rest, g);
        }
    }
}

proof fn lemma_scan_each_malformed(lines: Seq<Seq<char>>, f: NarInfoFieldsView, i: int)
    requires
        0 <= i < lines.len(),
        malformed(lines[i]),
    ensures
        !(scan_each(lines, f) is Fields),
    decreases lines.len(),
{
    lemma_apply_line_by_key(f, lines[0]);
    if i > 0 {
        if let Scan::Fields(g) = apply_line(f, lines[0]) {
            assert(lines.skip(1)[i - 1] == lines[i]);
            lemma_scan_each_malformed(lines.skip(1), g, i - 1);
        }
    }
}

proof fn lemma_scan_each_fields(lines: Seq<Seq<char>>, f: NarInfoFieldsView, key: Seq<char>)
    ensures
        scan_each(lines, f) matches Scan::Fields(g) ==> {
            &&& (forall|i: int| 0 <= i < lines.len() ==> line_key(#[trigger] lines[i]) != Some(key))
                ==> has_field(g, key) == has_field(f, key)
            &&& g.url == match last_value(lines, "URL"@) {
                Some(v) => Some(v),
                None => f.url,
            }
            &&& g.deriver == match last_value(lines, "Deriver"@) {
                Some(v) => Some(v),
                None => f.deriver,
            }
            &&& g.signatures == f.signatures + sig_values(lines)
        },
    decreases lines.len(),
{
    reveal_strlit("StorePath");
    reveal_strlit("URL");
    reveal_strlit("Compression");
    reveal_strlit("FileHash");
    reveal_strlit("FileSize");
    reveal_strlit("NarHash");
    reveal_strlit("NarSize");
    reveal_strlit("Deriver");
    reveal_strlit("Sig");
    if lines.len() == 0 {
        assert(f.signatures + Seq::empty() =~= f.signatures);
    } else {
        let l0 = lines[0];
        let rest = lines.skip(1);
        lemma_apply_line_by_key(f, l0);
        if let Scan::Fields(h) = apply_line(f, l0) {
            lemma_scan_each_fields(rest, h, key);
            if let Scan::Fields(g) = scan_each(lines, f) {
                assert(scan_each(rest, h) == Scan::Fields(g));
                match line_key(l0) {
                    Some(k) => {
                        lemma_apply_field_frame(f, k, line_value(l0));
                        lemma_narinfo_line_rules(f, l0, k, line_value(l0));
                        if k == "Sig"@ {
                            lemma_apply_sig_field(f, line_value(l0));
                            assert(parse_signature_spec(line_value(l0)) is Some);
                            assert(f.signatures + sig_values(lines) =~= h.signatures + sig_values(rest));
                        } else {
                            assert(sig_values(lines) == sig_values(rest));
                        }
                        if forall|i: int| 0 <= i < lines.len() ==> line_key(#[trigger] lines[i]) != Some(key) {
                            assert forall|i: int| 0 <= i < rest.len() implies line_key(#[trigger] rest[i]) != Some(key) by {
                                assert(rest[i] == lines[i + 1]);
                            }
                            assert(line_key(lines[0]) != Some(key));
                        }
                    },
                    None => {
                        assert(h == f);
                        assert(sig_values(lines) == sig_values(rest));
                        if forall|i: int| 0 <= i < lines.len() ==> line_key(#[trigger] lines[i]) != Some(key) {
                            assert forall|i: int| 0 <= i < rest.len() implies line_key(#[trigger] rest[i]) != Some(key) by {
                                assert(rest[i] == lines[i + 1]);
                            }
                        }
                    },
                }
            }
        }
    }
}

/// The store path a `StorePath` value names, when it names one.
pub open spec fn store_path_of(v: Seq<char>) -> Option<(Seq<u8>, Seq<char>)> {
    match store_path_value(v) {
        Ok(p) => Some(p),
        Err(_) => None,
    }
}

/// What a single-valued line that is taken sets its field to.
proof fn lemma_apply_field_value(f: NarInfoFieldsView, key: Seq<char>, v: Seq<char>)
    ensures
        apply_field(f, key, v) matches Scan::Fields(g) ==> {
            &&& key == "StorePath"@ ==> g.store_path == store_path_of(v)
            &&& key == "Compression"@ ==> g.compression == compression_named(v)
            &&& key == "FileHash"@ ==> g.file_hash == parse_nix_hash_spec(v)
            &&& key == "NarHash"@ ==> g.nar_hash == parse_nix_hash_spec(v)
            &&& key == "FileSize"@ ==> g.file_size == parse_u64_spec(v)
            &&& key == "NarSize"@ ==> g.nar_size == parse_u64_spec(v)
        },
{
    reveal(apply_field);
    reveal_strlit("StorePath");
    reveal_strlit("URL");
    reveal_strlit("Compression");
    reveal_strlit("FileHash");
    reveal_strlit("NarHash");
    reveal_strlit("FileSize");
    reveal_strlit("NarSize");
    assert("StorePath"@.len() == 9 && "URL"@.len() == 3 && "Compression"@.len() == 11
        && "FileHash"@.len() == 8 && "NarHash"@.len() == 7 && "FileSize"@.len() == 8
        && "NarSize"@.len() == 7);
    assert("FileSize"@[4] != "FileHash"@[4]);
    assert("NarSize"@[3] != "NarHash"@[3]);
}

proof fn lemma_scan_each_parsed(lines: Seq<Seq<char>>, f: NarInfoFieldsView)
    ensures
        scan_each(lines, f) matches Scan::Fields(g) ==> {
            &&& g.store_path == match last_value(lines, "StorePath"@) {
                Some(v) => store_path_of(v),
                None => f.store_path,
            }
            &&& g.compression == match last_value(lines, "Compression"@) {
                Some(v) => compression_named(v),
                None => f.compression,
            }
            &&& g.file_hash == match last_value(lines, "FileHash"@) {
                Some(v) => parse_nix_hash_spec(v),
                None => f.file_hash,
            }
            &&& g.nar_hash == match last_value(lines, "NarHash"@) {
                Some(v) => parse_nix_hash_spec(v),
                None => f.nar_hash,
            }
            &&& g.file_size == match last_value(lines, "FileSize"@) {
                Some(v) => parse_u64_spec(v),
                None => f.file_size,
            }
            &&& g.nar_size == match last_value(lines, "NarSize"@) {
                Some(v) => parse_u64_spec(v),
                None => f.nar_size,
            }
        },
    decreases lines.len(),
{
    if lines.len() > 0 {
        let l0 = lines[0];
        let rest = lines.skip(1);
        lemma_apply_line_by_key(f, l0);
        if let Scan::Fields(h) = apply_line(f, l0) {
            lemma_scan_each_parsed(rest, h);
            if let Some(k) = line_key(l0) {
                lemma_apply_field_frame(f, k, line_value(l0));
                lemma_apply_field_value(f, k, line_value(l0));
            }
        }
    }
}

/// Reading a `.narinfo` made of `lines`: a line that is neither blank nor `key: value`
/// refuses the file; so does a required key on no line; otherwise each single-valued
/// field comes from the last line with its key (`StorePath`, `URL`, `Compression`,
/// `FileHash`, `FileSize`, `NarHash`, `NarSize`, `Deriver`), and the signatures are those
/// of the `Sig` lines, in order.
pub proof fn lemma_narinfo_file_rules(lines: Seq<Seq<char>>, r: Result<NarInfo, NiphasError>)
    requires
        lines.len() > 0,
        single_lines(lines),
        narinfo_parse_result(lines_text(lines), r),
    ensures
        (exists|i: int| 0 <= i < lines.len() && malformed(#[trigger] lines[i])) ==> r is Err,
        forall|key: Seq<char>|
            #[trigger] required_key(key) && (forall|i: int|
                0 <= i < lines.len() ==> line_key(#[trigger] lines[i]) != Some(key)) ==> r is Err,
        r matches Ok(n) ==> last_value(lines, "URL"@) == Some(n.url@),
        r matches Ok(n) ==> last_value(lines, "Deriver"@) == opt_text(n.deriver),
        r matches Ok(n) ==> signature_views(n.signatures@) == sig_values(lines),
        r matches Ok(n) ==> last_value(lines, "StorePath"@) matches Some(v) && store_path_of(v) == Some(
            (n.store_path.hash@, n.store_path.name@),
        ),
        r matches Ok(n) ==> last_value(lines, "Compression"@) matches Some(v) && compression_named(v)
            == Some(n.compression),
        r matches Ok(n) ==> last_value(lines, "FileHash"@) matches Some(v) && parse_nix_hash_spec(v)
            == Some((n.file_hash.algo, n.file_hash.digest@)),
        r matches Ok(n) ==> last_value(lines, "NarHash"@) matches Some(v) && parse_nix_hash_spec(v)
            == Some((n.nar_hash.algo, n.nar_hash.digest@)),
        r matches Ok(n) ==> last_value(lines, "FileSize"@) matches Some(v) && parse_u64_spec(v) == Some(
            n.file_size,
        ),
        r matches Ok(n) ==> last_value(lines, "NarSize"@) matches Some(v) && parse_u64_spec(v) == Some(
            n.nar_size,
        ),
{
    lemma_scan_each_text(lines, no_fields());
    if exists|i: int| 0 <= i < lines.len() && malformed(#[trigger] lines[i]) {
        let i = choose|i: int| 0 <= i < lines.len() && malformed(#[trigger] lines[i]);
        lemma_scan_each_malformed(lines, no_fields(), i);
    }
    reveal_strlit("StorePath");
    reveal_strlit("URL");
    reveal_strlit("Compression");
    reveal_strlit("FileHash");
    reveal_strlit("FileSize");
    reveal_strlit("NarHash");
    reveal_strlit("NarSize");
    assert forall|key: Seq<char>|
        #[trigger] required_key(key) && (forall|i: int|
            0 <= i < lines.len() ==> line_key(#[trigger] lines[i]) != Some(key)) implies r is Err by {
        lemma_scan_each_fields(lines, no_fields(), key);
    }
    lemma_scan_each_fields(lines, no_fields(), "URL"@);
    lemma_scan_each_parsed(lines, no_fields());
    if let Ok(n) = r {
        assert(no_fields().signatures + sig_values(lines) =~= sig_values(lines));
    }
}

/// The inputs on which one of the value parsers would index out of bounds.
pub open spec fn narinfo_panics(input: Seq<char>) -> bool {
    scan_lines(input, no_fields()) is Panics
}

impl NarInfo {
    /// The fields of this `.narinfo`, as values.
    pub open spec fn fields(self) -> NarInfoFieldsView {
        NarInfoFieldsView {
            store_path: Some((self.store_path.hash@, self.store_path.name@)),
            url: Some(self.url@),
            compression: Some(self.compression),
            file_hash: Some((self.file_hash.algo, self.file_hash.digest@)),
            file_size: Some(self.file_size),
            nar_hash: Some((self.nar_hash.algo, self.nar_hash.digest@)),
            nar_size: Some(self.nar_size),
            references: reference_texts(self.references@),
            deriver: opt_text(self.deriver),
            signatures: signature_views(self.signatures@),
            ca: opt_text(self.ca),
        }
    }

    /// Parse a `.narinfo` text file.
    ///
    /// Lines are read in order; blank lines are skipped, every other line must hold
    /// `key: value`, unknown keys are ignored, and a later line for a key replaces an
    /// earlier one (`Sig` lines add up).
    #[verifier::rlimit(80)]
    #[verifier::spinoff_prover]
    pub fn parse(input: &str) -> (r: Result<NarInfo, NiphasError>)
        requires
            !narinfo_panics(input@),
        ensures
            narinfo_parse_result(input@, r),
    {
        let v = crate::text::chars_of(input);
        let mut f = Fields {
            store_path: None,
            url: None,
            compression: None,
            file_hash: None,
            file_size: None,
            nar_hash: None,
            nar_size: None,
            references: Vec::new(),
            deriver: None,
            signatures: Vec::new(),
            ca: None,
        };
        proof {
            assert(f.view().references =~= no_fields().references);
            assert(f.view().signatures =~= no_fields().signatures);
            assert(v@.skip(0) =~= input@);
        }
        let mut pos: usize = 0;
        loop
            invariant_except_break
                !(scan_lines(v@.skip(pos as int), f.view()) is Panics),
                scan_lines(input@, no_fields()) == scan_lines(v@.skip(pos as int), f.view()),
            invariant
                pos <= v@.len(),
                v@ == input@,
            ensures
                scan_lines(input@, no_fields()) == Scan::Fields(f.view()),
            decreases v@.len() - pos,
        {
            let ghost rest = v@.skip(pos as int);
            let nl = crate::text::find_char(&v, pos, v.len(), '\n');
            let end = match nl {
                Some(k) => k,
                None => v.len(),
            };
            proof {
                match nl {
                    Some(k) => {
                        crate::text::lemma_first_index(rest, '\n', k - pos);
                        assert(rest.take(k - pos) =~= v@.subrange(pos as int, k as int));
                        assert(rest.skip(k - pos + 1) =~= v@.skip(k + 1));
                        lemma_scan_next(rest, f.view(), k - pos);
                    },
                    None => {
                        crate::text::lemma_first_index_none(rest, '\n');
                        assert(rest =~= v@.subrange(pos as int, v@.len() as int));
                        lemma_scan_last(rest, f.view());
                    },
                }

            }
            match process_line(&mut f, &v, pos, end) {
                Ok(()) => {},
                Err(e) => return Err(e),
            }
            match nl {
                Some(k) => {
                    pos = k + 1;
                },
                None => {
                    break;
                },
            }
        }
        let ghost fv = f.view();
        let store_path = match f.store_path {
            Some(x) => x,
            None => return Err(missing_field("StorePath")),
        };
        let url = match f.url {
            Some(x) => x,
            None => return Err(missing_field("URL")),
        };
        let compression = match f.compression {
            Some(x) => x,
            None => return Err(missing_field("Compression")),
        };
        let file_hash = match f.file_hash {
            Some(x) => x,
            None => return Err(missing_field("FileHash")),
        };
        let file_size = match f.file_size {
            Some(x) => x,
            None => return Err(missing_field("FileSize")),
        };
        let nar_hash = match f.nar_hash {
            Some(x) => x,
            None => return Err(missing_field("NarHash")),
        };
        let nar_size = match f.nar_size {
            Some(x) => x,
            None => return Err(missing_field("NarSize")),
        };
        let n = NarInfo {
            store_path,
            url,
            compression,
            file_hash,
            file_size,
            nar_hash,
            nar_size,
            references: f.references,
            deriver: f.deriver,
            signatures: f.signatures,
            ca: f.ca,
        };
        proof {
            assert(n.fields() =~= fv);
        }
        Ok(n)
    }
}

// ---------------------------------------------------------------------------
// Fingerprint
// ---------------------------------------------------------------------------

/// String order: `a` is not after `b` in byte order.
pub open spec fn text_le(a: Seq<char>, b: Seq<char>) -> bool {
    !bytes_lt(encode_utf8(b), encode_utf8(a))
}

proof fn lemma_bytes_lt_irreflexive(a: Seq<u8>)
    ensures
        !bytes_lt(a, a),
    decreases a.len(),
{
    if a.len() > 0 {
        lemma_bytes_lt_irreflexive(a.skip(1));
    }
}

proof fn lemma_bytes_lt_transitive(a: Seq<u8>, b: Seq<u8>, c: Seq<u8>)
    requires
        bytes_lt(a, b),
        bytes_lt(b, c),
    ensures
        bytes_lt(a, c),
    decreases a.len(),
{
    if a.len() > 0 && b.len() > 0 && c.len() > 0 && a[0] == b[0] && b[0] == c[0] {
        lemma_bytes_lt_transitive(a.skip(1), b.skip(1), c.skip(1));
    }
}

proof fn lemma_bytes_lt_total(a: Seq<u8>, b: Seq<u8>)
    ensures
        a == b || bytes_lt(a, b) || bytes_lt(b, a),
    decreases a.len(),
{
    if a.len() > 0 && b.len() > 0 && a[0] == b[0] {
        lemma_bytes_lt_total(a.skip(1), b.skip(1));
        if a.skip(1) == b.skip(1) {
            assert(a =~= seq![a[0]] + a.skip(1));
            assert(b =~= seq![b[0]] + b.skip(1));
        }
    } else if a.len() == 0 && b.len() == 0 {
        assert(a =~= b);
    }
}

proof fn lemma_text_le_total_ordering()
    ensures
        vstd::relations::total_ordering(|a: Seq<char>, b: Seq<char>| text_le(a, b)),
{
    let le = |a: Seq<char>, b: Seq<char>| text_le(a, b);
    assert forall|a: Seq<char>| #[trigger] le(a, a) by {
        lemma_bytes_lt_irreflexive(encode_utf8(a));
    }
    assert forall|a: Seq<char>, b: Seq<char>| #[trigger] le(a, b) && #[trigger] le(b, a) implies a
        == b by {
        lemma_bytes_lt_total(encode_utf8(a), encode_utf8(b));
        vstd::utf8::encode_utf8_decode_utf8(a);
        vstd::utf8::encode_utf8_decode_utf8(b);
    }
    assert forall|a: Seq<char>, b: Seq<char>, c: Seq<char>|
        #[trigger] le(a, b) && #[trigger] le(b, c) implies #[trigger] le(a, c) by {
        if bytes_lt(encode_utf8(c), encode_utf8(a)) {
            lemma_bytes_lt_total(encode_utf8(a), encode_utf8(b));
            if bytes_lt(encode_utf8(a), encode_utf8(b)) {
                lemma_bytes_lt_transitive(encode_utf8(c), encode_utf8(a), encode_utf8(b));
            }
        }
    }
    assert forall|a: Seq<char>, b: Seq<char>| #[trigger] le(a, b) || #[trigger] le(b, a) by {
        if bytes_lt(encode_utf8(b), encode_utf8(a)) && bytes_lt(encode_utf8(a), encode_utf8(b)) {
            lemma_bytes_lt_transitive(encode_utf8(a), encode_utf8(b), encode_utf8(a));
            lemma_bytes_lt_irreflexive(encode_utf8(a));
        }
    }
}

/// `ss` joined with `sep` between neighbours.
pub open spec fn join(ss: Seq<Seq<char>>, sep: Seq<char>) -> Seq<char>
    decreases ss.len(),
{
    if ss.len() == 0 {
        Seq::empty()
    } else if ss.len() == 1 {
        ss[0]
    } else {
        join(ss.drop_last(), sep) + sep + ss.last()
    }
}

/// The full store paths of the references.
pub open spec fn reference_paths(rs: Seq<StorePathRef>) -> Seq<Seq<char>> {
    Seq::new(rs.len(), |i: int| store_prefix() + rs[i]@)
}

/// The text that signatures cover:
/// `1;<store-path>;<nar-hash>;<nar-size>;<comma-separated sorted references>`.
pub open spec fn fingerprint_text(n: NarInfo) -> Seq<char> {
    "1;"@ + store_path_text(n.store_path.hash@, n.store_path.name@) + ";"@ + nix_hash_text(
        n.nar_hash.algo,
        n.nar_hash.digest@,
    ) + ";"@ + decimal(n.nar_size as nat) + ";"@ + join(
        reference_paths(n.references@).sort_by(|a: Seq<char>, b: Seq<char>| text_le(a, b)),
        ","@,
    )
}

/// The `;`-separated fields of `s` (as `str::split(';')` gives them).
#[verifier::opaque]
pub open spec fn semicolon_fields(s: Seq<char>) -> Seq<Seq<char>> {
    crate::text::split_on(s, ';')
}

/// `s` does not hold the character `c`.
#[verifier::opaque]
pub open spec fn lacks(s: Seq<char>, c: char) -> bool {
    forall|i: int| 0 <= i < s.len() ==> s[i] != c
}

proof fn lemma_split_whole(s: Seq<char>)
    requires
        lacks(s, ';'),
    ensures
        semicolon_fields(s) == seq![s],
{
    reveal(semicolon_fields);
    reveal(lacks);
    let c = ';';
    crate::text::lemma_first_index_some(s, c);
    if first_index(s, c) is Some {
        let k = first_index(s, c).unwrap();
        assert(s[k] != c);
    }
}

proof fn lemma_split_field(a: Seq<char>, b: Seq<char>)
    requires
        lacks(a, ';'),
    ensures
        semicolon_fields(a + seq![';'] + b) == seq![a] + semicolon_fields(b),
{
    reveal(semicolon_fields);
    reveal(lacks);
    let c = ';';
    let s = a + seq![c] + b;
    assert(s[a.len() as int] == c);
    crate::text::lemma_first_index_some(s, c);
    let k = first_index(s, c).unwrap();
    if k < a.len() {
        assert(s[k] == a[k]);
    }
    if k > a.len() {
        assert(s[a.len() as int] != c);
    }
    assert(k == a.len());
    assert(s.take(k) =~= a);
    assert(s.skip(k + 1) =~= b);
}

proof fn lemma_lacks_concat(a: Seq<char>, b: Seq<char>, c: char)
    requires
        lacks(a, c),
        lacks(b, c),
    ensures
        lacks(a + b, c),
{
    reveal(lacks);
    assert forall|i: int| 0 <= i < (a + b).len() implies (a + b)[i] != c by {
        if i >= a.len() {
            assert((a + b)[i] == b[i - a.len()]);
        }
    }
}

proof fn lemma_join_lacks(ss: Seq<Seq<char>>, sep: Seq<char>, c: char)
    requires
        lacks(sep, c),
        forall|i: int| 0 <= i < ss.len() ==> lacks(#[trigger] ss[i], c),
    ensures
        lacks(join(ss, sep), c),
    decreases ss.len(),
{
    if ss.len() == 1 {
        assert(lacks(ss[0], c));
    } else if ss.len() > 1 {
        lemma_join_lacks(ss.drop_last(), sep, c);
        assert(lacks(ss.last(), c));
        lemma_lacks_concat(join(ss.drop_last(), sep), sep, c);
        lemma_lacks_concat(join(ss.drop_last(), sep) + sep, ss.last(), c);
    } else {
        reveal(lacks);
    }
}

/// The references of a `.narinfo` as full store paths, in byte order.
pub open spec fn sorted_references(n: NarInfo) -> Seq<Seq<char>> {
    reference_paths(n.references@).sort_by(|a: Seq<char>, b: Seq<char>| text_le(a, b))
}

proof fn lemma_base32_lacks_semicolon(x: Seq<u8>)
    ensures
        lacks(crate::hash::nix_base32_string(x), ';'),
{
    reveal(lacks);
    crate::hash::lemma_nix_base32_string_chars(x);
    let b = crate::hash::nix_base32_string(x);
    assert forall|i: int| 0 <= i < b.len() implies b[i] != ';' by {
        assert(('0' <= b[i] <= '9') || ('a' <= b[i] <= 'z'));
    }
}

proof fn lemma_path_text_lacks(hash: Seq<u8>, name: Seq<char>)
    requires
        lacks(name, ';'),
    ensures
        lacks(store_path_text(hash, name), ';'),
{
    let b = crate::hash::nix_base32_string(hash);
    lemma_base32_lacks_semicolon(hash);
    assert(lacks(store_prefix(), ';')) by {
        reveal(lacks);
    }
    assert(lacks(seq!['-'], ';')) by {
        reveal(lacks);
    }
    lemma_lacks_concat(store_prefix(), b, ';');
    lemma_lacks_concat(store_prefix() + b, seq!['-'], ';');
    lemma_lacks_concat(store_prefix() + b + seq!['-'], name, ';');
    assert(store_path_text(hash, name) =~= store_prefix() + b + seq!['-'] + name);
}

proof fn lemma_hash_text_lacks(algo: HashAlgo, digest: Seq<u8>)
    ensures
        lacks(nix_hash_text(algo, digest), ';'),
{
    reveal_strlit("sha256");
    reveal_strlit("sha512");
    reveal_strlit("sha1");
    reveal_strlit("md5");
    reveal_strlit(":");
    lemma_base32_lacks_semicolon(digest);
    let nm = algo.name();
    assert(lacks(nm, ';')) by {
        reveal(lacks);
    }
    assert(lacks(":"@, ';')) by {
        reveal(lacks);
    }
    lemma_lacks_concat(nm, ":"@, ';');
    lemma_lacks_concat(nm + ":"@, crate::hash::nix_base32_string(digest), ';');
}

proof fn lemma_decimal_lacks(n: nat)
    ensures
        lacks(decimal(n), ';'),
{
    crate::config::lemma_decimal_reads_back(n);
    reveal(lacks);
    let d = decimal(n);
    assert forall|i: int| 0 <= i < d.len() implies d[i] != ';' by {
        assert(crate::text::is_ascii_digit(d[i]));
    }
}

proof fn lemma_references_lack(n: NarInfo)
    requires
        forall|i: int| 0 <= i < n.references@.len() ==> lacks(#[trigger] n.references@[i]@, ';'),
    ensures
        lacks(join(sorted_references(n), ","@), ';'),
        sorted_references(n).to_multiset() == reference_paths(n.references@).to_multiset(),
        vstd::relations::sorted_by(sorted_references(n), |a: Seq<char>, b: Seq<char>| text_le(a, b)),
{
    reveal_strlit(",");
    let src = reference_paths(n.references@);
    let rs = sorted_references(n);
    lemma_text_le_total_ordering();
    src.lemma_sort_by_ensures(|a: Seq<char>, b: Seq<char>| text_le(a, b));
    assert forall|i: int| 0 <= i < rs.len() implies lacks(#[trigger] rs[i], ';') by {
        assert(rs.contains(rs[i]));
        assert(src.contains(rs[i]));
        let j = choose|j: int| 0 <= j < src.len() && src[j] == rs[i];
        assert(lacks(n.references@[j]@, ';'));
        assert(lacks(store_prefix(), ';')) by {
            reveal(lacks);
        }
        lemma_lacks_concat(store_prefix(), n.references@[j]@, ';');
        assert(src[j] == store_prefix() + n.references@[j]@);
    }
    assert(lacks(","@, ';')) by {
        reveal(lacks);
    }
    lemma_join_lacks(rs, ","@, ';');
}

/// The fingerprint that signatures cover has exactly five `;`-separated fields: `1`, the
/// store path, the NAR hash, the NAR size in decimal, and the references as full store
/// paths in byte order joined by `,` (an empty field when there are none); when no name
/// holds a `;`.
#[verifier::spinoff_prover]
pub proof fn lemma_fingerprint_fields(n: NarInfo)
    requires
        lacks(n.store_path.name@, ';'),
        forall|i: int| 0 <= i < n.references@.len() ==> lacks(#[trigger] n.references@[i]@, ';'),
    ensures
        semicolon_fields(fingerprint_text(n)) == seq![
            "1"@,
            store_path_text(n.store_path.hash@, n.store_path.name@),
            nix_hash_text(n.nar_hash.algo, n.nar_hash.digest@),
            decimal(n.nar_size as nat),
            join(sorted_references(n), ","@),
        ],
        sorted_references(n).to_multiset() == reference_paths(n.references@).to_multiset(),
        vstd::relations::sorted_by(sorted_references(n), |a: Seq<char>, b: Seq<char>| text_le(a, b)),
{
    let p = store_path_text(n.store_path.hash@, n.store_path.name@);
    let h = nix_hash_text(n.nar_hash.algo, n.nar_hash.digest@);
    let d = decimal(n.nar_size as nat);
    let r = join(sorted_references(n), ","@);
    lemma_path_text_lacks(n.store_path.hash@, n.store_path.name@);
    lemma_hash_text_lacks(n.nar_hash.algo, n.nar_hash.digest@);
    lemma_decimal_lacks(n.nar_size as nat);
    lemma_references_lack(n);
    lemma_fingerprint_split(p, h, d, r, fingerprint_text(n));
}

#[verifier::spinoff_prover]
#[verifier::rlimit(40)]
proof fn lemma_fingerprint_split(p: Seq<char>, h: Seq<char>, d: Seq<char>, r: Seq<char>, fp: Seq<char>)
    requires
        lacks(p, ';'),
        lacks(h, ';'),
        lacks(d, ';'),
        lacks(r, ';'),
        fp == "1;"@ + p + ";"@ + h + ";"@ + d + ";"@ + r,
    ensures
        semicolon_fields(fp) == seq!["1"@, p, h, d, r],
{
    reveal_strlit("1;");
    reveal_strlit("1");
    reveal_strlit(";");
    let one = seq!['1'];
    assert("1"@ =~= one);
    assert(lacks(one, ';')) by {
        reveal(lacks);
    }
    let t4 = d + seq![';'] + r;
    let t3 = h + seq![';'] + t4;
    let t2 = p + seq![';'] + t3;
    let t1 = one + seq![';'] + t2;
    assert(fp =~= t1);
    lemma_split_whole(r);
    lemma_split_field(d, r);
    lemma_split_field(h, t4);
    lemma_split_field(p, t3);
    lemma_split_field(one, t2);
    assert(seq![one] + (seq![p] + (seq![h] + (seq![d] + seq![r]))) =~= seq!["1"@, p, h, d, r]);
}

/// Sorts the strings in byte order.
fn sort_texts(v: Vec<String>) -> (r: Vec<String>)
    ensures
        Seq::new(r@.len(), |i: int| r@[i]@) == Seq::new(v@.len(), |i: int| v@[i]@).sort_by(
            |a: Seq<char>, b: Seq<char>| text_le(a, b),
        ),
{
    let ghost le = |a: Seq<char>, b: Seq<char>| text_le(a, b);
    let ghost src = Seq::new(v@.len(), |i: int| v@[i]@);
    let mut out: Vec<String> = Vec::new();
    let mut i: usize = 0;
    proof {
        lemma_text_le_total_ordering();
        assert(Seq::new(out@.len(), |k: int| out@[k]@) =~= Seq::<Seq<char>>::empty());
        assert(src.take(0) =~= Seq::<Seq<char>>::empty());
    }
    while i < v.len()
        invariant
            i <= v@.len(),
            src == Seq::new(v@.len(), |k: int| v@[k]@),
            le == (|a: Seq<char>, b: Seq<char>| text_le(a, b)),
            vstd::relations::total_ordering(le),
            vstd::relations::sorted_by(Seq::new(out@.len(), |k: int| out@[k]@), le),
            Seq::new(out@.len(), |k: int| out@[k]@).to_multiset() == src.take(i as int).to_multiset(),
        decreases v@.len() - i,
    {
        let x = &v[i];
        let mut p: usize = 0;
        while p < out.len() && !crate::nar::str_lt(x.as_str(), out[p].as_str())
            invariant
                p <= out@.len(),
                forall|q: int| 0 <= q < p ==> text_le(#[trigger] out@[q]@, x@),
            decreases out@.len() - p,
        {
            p += 1;
        }
        let ghost before = Seq::new(out@.len(), |k: int| out@[k]@);
        out.insert(p, x.clone());
        proof {
            let after = Seq::new(out@.len(), |k: int| out@[k]@);
            assert(after =~= before.insert(p as int, x@));
            vstd::seq_lib::to_multiset_insert(before, p as int, x@);
            assert(src.take(i + 1) =~= src.take(i as int).push(x@));
            vstd::seq_lib::to_multiset_build(src.take(i as int), x@);
            assert forall|a: int, b: int| 0 <= a < b < after.len() implies #[trigger] le(
                after[a],
                after[b],
            ) by {
                if p < out@.len() - 1 && b > p && a <= p {
                    if a < p {
                        assert(le(after[a], x@));
                    }
                    assert(bytes_lt(encode_utf8(x@), encode_utf8(before[p as int])));
                    if bytes_lt(encode_utf8(before[p as int]), encode_utf8(x@)) {
                        lemma_bytes_lt_transitive(
                            encode_utf8(x@),
                            encode_utf8(before[p as int]),
                            encode_utf8(x@),
                        );
                        lemma_bytes_lt_irreflexive(encode_utf8(x@));
                    }
                    assert(le(x@, before[p as int]));
                    if b - 1 > p {
                        assert(le(before[p as int], before[b - 1]));
                    }
                }
            }
        }
        i += 1;
    }
    proof {
        assert(src.take(i as int) =~= src);
        src.lemma_sort_by_ensures(le);
        vstd::seq_lib::lemma_sorted_unique(
            Seq::new(out@.len(), |k: int| out@[k]@),
            src.sort_by(le),
            le,
        );
    }
    out
}

impl NarInfo {
    /// Compute the fingerprint string that signatures cover.
    ///
    /// Format: `1;<store-path>;<nar-hash>;<nar-size>;<comma-separated-sorted-references>`
    pub fn fingerprint(&self) -> (r: String)
        requires
            self.nar_hash.digest@.len() * 8 + 4 <= usize::MAX,
        ensures
            r@ == fingerprint_text(*self),
    {
        let mut refs: Vec<String> = Vec::new();
        let mut i: usize = 0;
        while i < self.references.len()
            invariant
                i <= self.references@.len(),
                Seq::new(refs@.len(), |k: int| refs@[k]@) == reference_paths(self.references@).take(
                    i as int,
                ),
            decreases self.references@.len() - i,
        {
            let s = self.references[i].to_store_path_string();
            let ghost before = Seq::new(refs@.len(), |k: int| refs@[k]@);
            refs.push(s);
            proof {
                assert(Seq::new(refs@.len(), |k: int| refs@[k]@) =~= before.push(s@));
                assert(reference_paths(self.references@).take(i + 1) =~= reference_paths(
                    self.references@,
                ).take(i as int).push(s@));
            }
            i += 1;
        }
        proof {
            assert(reference_paths(self.references@).take(i as int) =~= reference_paths(
                self.references@,
            ));
        }
        let sorted = sort_texts(refs);
        let ghost ss = Seq::new(sorted@.len(), |k: int| sorted@[k]@);
        let mut joined = String::new();
        let mut j: usize = 0;
        while j < sorted.len()
            invariant
                j <= sorted@.len(),
                ss == Seq::new(sorted@.len(), |k: int| sorted@[k]@),
                joined@ == join(ss.take(j as int), ","@),
            decreases sorted@.len() - j,
        {
            if j > 0 {
                push_str(&mut joined, ",");
            }
            push_str(&mut joined, sorted[j].as_str());
            proof {
                assert(ss.take(j + 1).drop_last() =~= ss.take(j as int));
                if j == 0 {
                    assert(ss.take(0) =~= Seq::<Seq<char>>::empty());
                }
            }
            j += 1;
        }
        proof {
            assert(ss.take(j as int) =~= ss);
        }
        let mut r = String::new();
        push_str(&mut r, "1;");
        let sp = self.store_path.to_string();
        push_str(&mut r, sp.as_str());
        push_str(&mut r, ";");
        let h = self.nar_hash.to_string();
        push_str(&mut r, h.as_str());
        push_str(&mut r, ";");
        let n = crate::text::u64_to_string(self.nar_size);
        push_str(&mut r, n.as_str());
        push_str(&mut r, ";");
        push_str(&mut r, joined.as_str());
        r
    }
}

} // verus!
