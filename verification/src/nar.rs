use vstd::prelude::*;
use vstd::utf8::{decode_utf8, encode_utf8, valid_utf8};
use vstd::string::StringSliceAdditionalSpecFns;
use crate::error::NiphasError;
use crate::hash::{sha256_bytes, sha256_digest, HashAlgo, NixHash};
use crate::text::{chars_of, decimal, push_str, str_eq};

verus! {

// ---------------------------------------------------------------------------
// Wire format
// ---------------------------------------------------------------------------

/// The longest string a NAR may hold (128 MiB).
pub open spec fn max_string_len() -> nat {
    134217728
}

/// The eight little-endian bytes of `n`.
#[verifier::opaque]
pub open spec fn le8_bytes(n: u64) -> Seq<u8> {
    seq![
        (n % 256) as u8,
        ((n / 256) % 256) as u8,
        ((n / 65536) % 256) as u8,
        ((n / 16777216) % 256) as u8,
        ((n / 4294967296) % 256) as u8,
        ((n / 1099511627776) % 256) as u8,
        ((n / 281474976710656) % 256) as u8,
        ((n / 72057594037927936) % 256) as u8,
    ]
}

/// The number that eight little-endian bytes stand for.
pub open spec fn le8_value(s: Seq<u8>) -> int {
    s[0] + 256 * s[1] + 65536 * s[2] + 16777216 * s[3] + 4294967296 * s[4] + 1099511627776
        * s[5] + 281474976710656 * s[6] + 72057594037927936 * s[7]
}

/// Zero bytes that bring a string of `n` bytes to a multiple of eight.
pub open spec fn padding(n: nat) -> nat {
    ((8 - n % 8) % 8) as nat
}

/// `n` zero bytes.
pub open spec fn zeros(n: nat) -> Seq<u8> {
    Seq::new(n, |i: int| 0u8)
}

/// A byte string on the wire: its length as a little-endian `u64`, the bytes, and zero
/// padding to eight-byte alignment.
pub open spec fn str_enc(s: Seq<u8>) -> Seq<u8> {
    le8_bytes(s.len() as u64) + s + zeros(padding(s.len()))
}

/// A text token on the wire: its UTF-8 bytes as a byte string.
#[verifier::opaque]
pub open spec fn tok(s: Seq<char>) -> Seq<u8> {
    str_enc(encode_utf8(s))
}

/// `data` holds `enc` at `pos`.
#[verifier::opaque]
pub open spec fn has_at(data: Seq<u8>, pos: int, enc: Seq<u8>) -> bool {
    0 <= pos && pos + enc.len() <= data.len() && data.subrange(pos, pos + enc.len()) == enc
}

proof fn lemma_le8_roundtrip(n: u64)
    ensures
        le8_value(le8_bytes(n)) == n,
        le8_bytes(n).len() == 8,
{
    reveal(le8_bytes);
    let b = le8_bytes(n);
    assert(n == (n % 256) + 256 * ((n / 256) % 256) + 65536 * ((n / 65536) % 256) + 16777216 * ((n
        / 16777216) % 256) + 4294967296 * ((n / 4294967296) % 256) + 1099511627776 * ((n
        / 1099511627776) % 256) + 281474976710656 * ((n / 281474976710656) % 256)
        + 72057594037927936 * ((n / 72057594037927936) % 256)) by (bit_vector);
}

proof fn lemma_has_at_bounds(data: Seq<u8>, pos: int, enc: Seq<u8>)
    ensures
        has_at(data, pos, enc) ==> 0 <= pos && pos + enc.len() <= data.len(),
        has_at(data, pos, Seq::empty()) <== 0 <= pos <= data.len(),
{
    reveal(has_at);
    if 0 <= pos <= data.len() {
        assert(data.subrange(pos, pos) =~= Seq::<u8>::empty());
    }
}

proof fn lemma_has_at_concat(data: Seq<u8>, pos: int, a: Seq<u8>, b: Seq<u8>)
    ensures
        has_at(data, pos, a + b) == (has_at(data, pos, a) && has_at(data, pos + a.len(), b)),
{
    reveal(has_at);
    if has_at(data, pos, a + b) {
        let w = data.subrange(pos, pos + a.len() + b.len());
        assert(w == a + b);
        assert(data.subrange(pos, pos + a.len()) =~= w.subrange(0, a.len() as int));
        assert((a + b).subrange(0, a.len() as int) =~= a);
        assert(data.subrange(pos + a.len(), pos + a.len() + b.len()) =~= w.subrange(
            a.len() as int,
            (a.len() + b.len()) as int,
        ));
        assert((a + b).subrange(a.len() as int, (a.len() + b.len()) as int) =~= b);
    }
    if has_at(data, pos, a) && has_at(data, pos + a.len(), b) {
        assert forall|k: int| 0 <= k < (a + b).len() implies data.subrange(pos, pos + (a + b).len())[k]
            == (a + b)[k] by {
            if k < a.len() {
                assert(data.subrange(pos, pos + a.len())[k] == a[k]);
            } else {
                assert(data.subrange(pos + a.len(), pos + a.len() + b.len())[k - a.len()] == b[k
                    - a.len()]);
            }
        }
        assert(data.subrange(pos, pos + (a + b).len()) =~= a + b);
    }
}

proof fn lemma_le8_value_bytes(b: Seq<u8>)
    requires
        b.len() == 8,
    ensures
        0 <= le8_value(b) <= u64::MAX,
        le8_bytes(le8_value(b) as u64) == b,
{
    let b0 = b[0];
    let b1 = b[1];
    let b2 = b[2];
    let b3 = b[3];
    let b4 = b[4];
    let b5 = b[5];
    let b6 = b[6];
    let b7 = b[7];
    let v: u64 = (b0 + 256 * b1 + 65536 * b2 + 16777216 * b3 + 4294967296 * b4 + 1099511627776 * b5
        + 281474976710656 * b6 + 72057594037927936 * b7) as u64;
    assert(b0 + 256 * b1 + 65536 * b2 + 16777216 * b3 + 4294967296 * b4 + 1099511627776 * b5
        + 281474976710656 * b6 + 72057594037927936 * b7 <= u64::MAX);
    assert(v % 256 == b0 && (v / 256) % 256 == b1 && (v / 65536) % 256 == b2 && (v / 16777216)
        % 256 == b3 && (v / 4294967296) % 256 == b4 && (v / 1099511627776) % 256 == b5 && (v
        / 281474976710656) % 256 == b6 && (v / 72057594037927936) % 256 == b7) by (bit_vector)
        requires
            v == b0 + 256 * b1 + 65536 * b2 + 16777216 * b3 + 4294967296 * b4 + 1099511627776
                * b5 + 281474976710656 * b6 + 72057594037927936 * b7,
    ;
    reveal(le8_bytes);
    assert(le8_bytes(v) =~= b);
}

/// `a` comes strictly before `b` in byte order (how Rust orders strings).
pub open spec fn bytes_lt(a: Seq<u8>, b: Seq<u8>) -> bool
    decreases a.len(),
{
    if a.len() == 0 {
        b.len() > 0
    } else if b.len() == 0 {
        false
    } else if a[0] != b[0] {
        a[0] < b[0]
    } else {
        bytes_lt(a.skip(1), b.skip(1))
    }
}

/// A directory entry name that NAR allows: not empty, not `.` or `..`, and without
/// `/` or NUL.
pub open spec fn valid_entry_name_spec(name: Seq<char>) -> bool {
    &&& name.len() > 0
    &&& name != seq!['.']
    &&& name != seq!['.', '.']
    &&& !name.contains('/')
    &&& !name.contains('\0')
}

/// The wire form of a node.
#[verifier::opaque]
pub open spec fn encode_tree(t: NarTree) -> Seq<u8>
    decreases t, 3nat,
{
    tok("("@) + tok("type"@) + node_body(t)
}

/// A node on the wire after its `(` and `type` tokens.
pub open spec fn node_body(t: NarTree) -> Seq<u8>
    decreases t, 2nat,
{
    match t {
        NarTree::Regular { executable, contents } => tok("regular"@) + regular_rest(
            executable,
            contents,
        ),
        NarTree::Symlink { target } => tok("symlink"@) + symlink_rest(target),
        NarTree::Directory { entries } => tok("directory"@) + (encode_entries(entries) + tok(")"@)),
    }
}

/// A regular file on the wire after its type tag.
pub open spec fn regular_rest(executable: bool, contents: Seq<u8>) -> Seq<u8> {
    (if executable {
        tok("executable"@) + tok(""@)
    } else {
        Seq::empty()
    }) + tok("contents"@) + str_enc(contents) + tok(")"@)
}

/// A symlink on the wire after its type tag.
pub open spec fn symlink_rest(target: Seq<char>) -> Seq<u8> {
    tok("target"@) + tok(target) + tok(")"@)
}

/// A directory on the wire after its type tag.
pub open spec fn dir_rest(es: Seq<(Seq<char>, NarTree)>) -> Seq<u8> {
    encode_entries(es) + tok(")"@)
}

/// The tokens that open a directory entry called `name`.
pub open spec fn entry_head(name: Seq<char>) -> Seq<u8> {
    tok("entry"@) + tok("("@) + tok("name"@) + tok(name) + tok("node"@)
}

/// The wire form of the entries of a directory, in order.
#[verifier::opaque]
pub open spec fn encode_entries(es: Seq<(Seq<char>, NarTree)>) -> Seq<u8>
    decreases es, 0nat,
{
    if es.len() == 0 {
        Seq::empty()
    } else {
        encode_entries(es.drop_last()) + encode_entry(es.last())
    }
}

/// The wire form of one directory entry.
pub open spec fn encode_entry(x: (Seq<char>, NarTree)) -> Seq<u8>
    decreases x, 4nat,
{
    entry_head(x.0) + encode_tree(x.1) + tok(")"@)
}

/// What the parser accepts of a tree below `level` enclosing directories, where at most
/// `max_depth` directories may nest: strings of at most 128 MiB, valid entry names in
/// strictly increasing byte order.
pub open spec fn valid_tree(t: NarTree, level: nat, max_depth: nat) -> bool
    decreases t, 1nat,
{
    match t {
        NarTree::Regular { contents, .. } => contents.len() <= max_string_len(),
        NarTree::Symlink { target } => encode_utf8(target).len() <= max_string_len(),
        NarTree::Directory { entries } => level + 1 <= max_depth && valid_entries(
            entries,
            level + 1,
            max_depth,
        ),
    }
}

/// `valid_tree` for the entries of a directory at `level`.
pub open spec fn valid_entries(es: Seq<(Seq<char>, NarTree)>, level: nat, max_depth: nat) -> bool
    decreases es, 0nat,
{
    if es.len() == 0 {
        true
    } else {
        &&& valid_entries(es.drop_last(), level, max_depth)
        &&& valid_entry_name_spec(es.last().0)
        &&& encode_utf8(es.last().0).len() <= max_string_len()
        &&& valid_tree(es.last().1, level, max_depth)
        &&& es.len() > 1 ==> bytes_lt(encode_utf8(es[es.len() - 2].0), encode_utf8(es.last().0))
    }
}

// ---------------------------------------------------------------------------
// How reading goes, step by step
// ---------------------------------------------------------------------------

/// Why reading stopped: a message, or bytes that are not UTF-8 (reported as
/// `invalid UTF-8 string: ` and std's reason).
pub enum NarFailure {
    Message(Seq<char>),
    BadUtf8,
}

/// `m` is the message of the failure `f`.
pub open spec fn failure_text(f: NarFailure, m: Seq<char>) -> bool {
    match f {
        NarFailure::Message(t) => m == t,
        NarFailure::BadUtf8 => m.len() >= "invalid UTF-8 string: "@.len() && m.take(
            "invalid UTF-8 string: "@.len() as int,
        ) == "invalid UTF-8 string: "@,
    }
}

/// The message of input that ends early.
pub open spec fn eof_text() -> Seq<char> {
    "unexpected EOF: early eof"@
}

/// Reading a byte string at `pos`: its bytes and where it ends, or why it cannot be read.
#[verifier::opaque]
pub open spec fn bytes_at(data: Seq<u8>, pos: int) -> Result<(Seq<u8>, int), NarFailure> {
    if pos + 8 > data.len() {
        Err(NarFailure::Message(eof_text()))
    } else {
        let n = le8_value(data.subrange(pos, pos + 8));
        let end = pos + 8 + n + padding(n as nat);
        if n > max_string_len() {
            Err(NarFailure::Message("string too large: "@ + decimal(n as nat) + " bytes"@))
        } else if end > data.len() {
            Err(NarFailure::Message(eof_text()))
        } else if exists|j: int| pos + 8 + n <= j < end && #[trigger] data[j] != 0 {
            Err(NarFailure::Message("non-zero padding bytes"@))
        } else {
            Ok((data.subrange(pos + 8, pos + 8 + n), end))
        }
    }
}

/// Reading a text token at `pos`.
#[verifier::opaque]
pub open spec fn text_at(data: Seq<u8>, pos: int) -> Result<(Seq<char>, int), NarFailure> {
    match bytes_at(data, pos) {
        Ok((b, end)) => if valid_utf8(b) {
            Ok((decode_utf8(b), end))
        } else {
            Err(NarFailure::BadUtf8)
        },
        Err(f) => Err(f),
    }
}

/// Reading the token `lit` at `pos`: where it ends.
#[verifier::opaque]
pub open spec fn expect_at(data: Seq<u8>, pos: int, lit: Seq<char>) -> Result<int, NarFailure> {
    match text_at(data, pos) {
        Ok((s, end)) => if s == lit {
            Ok(end)
        } else {
            Err(NarFailure::Message("expected '"@ + lit + "', got '"@ + s + "'"@))
        },
        Err(f) => Err(f),
    }
}

/// Reading a regular file after its type tag.
#[verifier::opaque]
pub open spec fn regular_at(data: Seq<u8>, pos: int) -> Result<(NarTree, int), NarFailure> {
    match text_at(data, pos) {
        Err(f) => Err(f),
        Ok((next, p1)) => {
            let head: Result<(bool, int), NarFailure> = if next == "executable"@ {
                match expect_at(data, p1, ""@) {
                    Err(f) => Err(f),
                    Ok(p2) => match expect_at(data, p2, "contents"@) {
                        Err(f) => Err(f),
                        Ok(p3) => Ok((true, p3)),
                    },
                }
            } else if next == "contents"@ {
                Ok((false, p1))
            } else {
                Err(
                    NarFailure::Message(
                        "expected 'executable' or 'contents', got '"@ + next + "'"@,
                    ),
                )
            };
            match head {
                Err(f) => Err(f),
                Ok((executable, p3)) => match bytes_at(data, p3) {
                    Err(f) => Err(f),
                    Ok((contents, p4)) => match expect_at(data, p4, ")"@) {
                        Err(f) => Err(f),
                        Ok(end) => Ok((NarTree::Regular { executable, contents }, end)),
                    },
                },
            }
        },
    }
}

/// Reading a symlink after its type tag.
#[verifier::opaque]
pub open spec fn symlink_at(data: Seq<u8>, pos: int) -> Result<(NarTree, int), NarFailure> {
    match expect_at(data, pos, "target"@) {
        Err(f) => Err(f),
        Ok(p1) => match text_at(data, p1) {
            Err(f) => Err(f),
            Ok((target, p2)) => match expect_at(data, p2, ")"@) {
                Err(f) => Err(f),
                Ok(end) => Ok((NarTree::Symlink { target }, end)),
            },
        },
    }
}

/// The message `validate_entry_name` refuses `name` with.
pub open spec fn entry_name_error(name: Seq<char>) -> Seq<char> {
    if name.len() == 0 {
        "empty entry name"@
    } else if name == seq!['.'] || name == seq!['.', '.'] {
        "invalid entry name: '"@ + name + "'"@
    } else {
        "entry name contains forbidden characters: '"@ + name + "'"@
    }
}

/// The message of a directory nested deeper than `max_depth`.
pub open spec fn depth_error(max_depth: nat) -> Seq<char> {
    "directory nesting depth exceeds limit ("@ + decimal(max_depth) + ")"@
}

/// Reading a node at `pos`, below `level` enclosing directories, where at most
/// `max_depth` may nest.
pub open spec fn node_at(data: Seq<u8>, pos: int, level: nat, max_depth: nat) -> Result<
    (NarTree, int),
    NarFailure,
>
    decreases data.len() - pos,
{
    match expect_at(data, pos, "("@) {
        Err(f) => Err(f),
        Ok(p1) => match expect_at(data, p1, "type"@) {
            Err(f) => Err(f),
            Ok(p2) => match text_at(data, p2) {
                Err(f) => Err(f),
                Ok((ty, p3)) => if ty == "regular"@ {
                    regular_at(data, p3)
                } else if ty == "symlink"@ {
                    symlink_at(data, p3)
                } else if ty == "directory"@ {
                    if level >= max_depth {
                        Err(NarFailure::Message(depth_error(max_depth)))
                    } else if pos < p3 <= data.len() {
                        entries_at(data, p3, level + 1, max_depth, Seq::empty())
                    } else {
                        Err(NarFailure::Message(eof_text()))
                    }
                } else {
                    Err(NarFailure::Message("unknown node type: '"@ + ty + "'"@))
                },
            },
        },
    }
}

/// Reading the rest of a directory at `pos`, after the entries `seen`.
pub open spec fn entries_at(
    data: Seq<u8>,
    pos: int,
    level: nat,
    max_depth: nat,
    seen: Seq<(Seq<char>, NarTree)>,
) -> Result<(NarTree, int), NarFailure>
    decreases data.len() - pos,
{
    match text_at(data, pos) {
        Err(f) => Err(f),
        Ok((next, p1)) => if next == ")"@ {
            Ok((NarTree::Directory { entries: seen }, p1))
        } else if next != "entry"@ {
            Err(NarFailure::Message("expected 'entry' or ')', got '"@ + next + "'"@))
        } else {
            match expect_at(data, p1, "("@) {
                Err(f) => Err(f),
                Ok(p2) => match expect_at(data, p2, "name"@) {
                    Err(f) => Err(f),
                    Ok(p3) => match text_at(data, p3) {
                        Err(f) => Err(f),
                        Ok((name, p4)) => if !valid_entry_name_spec(name) {
                            Err(NarFailure::Message(entry_name_error(name)))
                        } else if seen.len() > 0 && !bytes_lt(
                            encode_utf8(seen.last().0),
                            encode_utf8(name),
                        ) {
                            Err(
                                NarFailure::Message(
                                    "directory entries not sorted: '"@ + seen.last().0
                                        + "' followed by '"@ + name + "'"@,
                                ),
                            )
                        } else {
                            match expect_at(data, p4, "node"@) {
                                Err(f) => Err(f),
                                Ok(p5) => if pos < p5 <= data.len() {
                                    match node_at(data, p5, level, max_depth) {
                                        Err(f) => Err(f),
                                        Ok((t, p6)) => match expect_at(data, p6, ")"@) {
                                            Err(f) => Err(f),
                                            Ok(p7) => if pos < p7 <= data.len() {
                                                entries_at(
                                                    data,
                                                    p7,
                                                    level,
                                                    max_depth,
                                                    seen.push((name, t)),
                                                )
                                            } else {
                                                Err(NarFailure::Message(eof_text()))
                                            },
                                        },
                                    }
                                } else {
                                    Err(NarFailure::Message(eof_text()))
                                },
                            }
                        },
                    },
                },
            }
        },
    }
}

/// Reading a whole archive: the magic string, then the root node.
pub open spec fn archive_at(data: Seq<u8>, max_depth: nat) -> Result<(NarTree, int), NarFailure> {
    match expect_at(data, 0, "nix-archive-1"@) {
        Err(f) => Err(f),
        Ok(p1) => node_at(data, p1, 0, max_depth),
    }
}

// ---------------------------------------------------------------------------
// Reading primitives
// ---------------------------------------------------------------------------

fn read_u64(data: &[u8], pos: usize) -> (r: Option<u64>)
    requires
        pos <= data@.len(),
    ensures
        r is Some <==> pos + 8 <= data@.len(),
        r matches Some(v) ==> v == le8_value(data@.subrange(pos as int, pos + 8)),
{
    if data.len() - pos < 8 {
        return None;
    }
    let b0 = data[pos] as u64;
    let b1 = data[pos + 1] as u64;
    let b2 = data[pos + 2] as u64;
    let b3 = data[pos + 3] as u64;
    let b4 = data[pos + 4] as u64;
    let b5 = data[pos + 5] as u64;
    let b6 = data[pos + 6] as u64;
    let b7 = data[pos + 7] as u64;
    let v = b0 + 256 * b1 + 65536 * b2 + 16777216 * b3 + 4294967296 * b4 + 1099511627776 * b5
        + 281474976710656 * b6 + 72057594037927936 * b7;
    Some(v)
}

proof fn lemma_str_enc_at(data: Seq<u8>, pos: int, s: Seq<u8>)
    requires
        has_at(data, pos, str_enc(s)),
        s.len() <= max_string_len(),
    ensures
        pos + 8 <= data.len(),
        le8_value(data.subrange(pos, pos + 8)) == s.len(),
        pos + 8 + s.len() + padding(s.len()) <= data.len(),
        data.subrange(pos + 8, pos + 8 + s.len()) == s,
        forall|k: int|
            pos + 8 + s.len() <= k < pos + 8 + s.len() + padding(s.len()) ==> data[k] == 0,
        str_enc(s).len() == 8 + s.len() + padding(s.len()),
{
    reveal(has_at);
    let l = le8_bytes(s.len() as u64);
    lemma_le8_roundtrip(s.len() as u64);
    lemma_has_at_concat(data, pos, l + s, zeros(padding(s.len())));
    lemma_has_at_concat(data, pos, l, s);
    assert forall|k: int|
        pos + 8 + s.len() <= k < pos + 8 + s.len() + padding(s.len()) implies data[k] == 0 by {
        let z = data.subrange(pos + 8 + s.len(), pos + 8 + s.len() + padding(s.len()));
        assert(z[k - (pos + 8 + s.len())] == zeros(padding(s.len()))[k - (pos + 8 + s.len())]);
    }
}

fn nar_error(msg: &str) -> (e: NiphasError)
    ensures
        e matches NiphasError::NarParse(m) && m@ == msg@,
{
    NiphasError::NarParse(msg.to_string())
}

/// Reads a byte string at `pos`; on success also says where it ends.
fn read_bytes(data: &[u8], pos: usize) -> (r: Result<(Vec<u8>, usize), NiphasError>)
    requires
        pos <= data@.len(),
    ensures
        r matches Ok((v, end)) ==> {
            &&& v@.len() <= max_string_len()
            &&& has_at(data@, pos as int, str_enc(v@))
            &&& end == pos + str_enc(v@).len()
            &&& end <= data@.len()
        },
        forall|s: Seq<u8>|
            #[trigger] has_at(data@, pos as int, str_enc(s)) && s.len() <= max_string_len() ==> (r
                matches Ok((v, _)) && v@ == s),
        r matches Err(e) ==> e is NarParse,
        match bytes_at(data@, pos as int) {
            Ok((b, e)) => r matches Ok((v, end)) && v@ == b && end == e,
            Err(f) => r matches Err(NiphasError::NarParse(m)) && failure_text(f, m@),
        },
{
    proof {
        reveal(bytes_at);
    }
    let len = match read_u64(data, pos) {
        Some(l) => l,
        None => {
            proof {
                assert forall|s: Seq<u8>|
                    #[trigger] has_at(data@, pos as int, str_enc(s)) && s.len()
                        <= max_string_len() implies false by {
                    lemma_str_enc_at(data@, pos as int, s);
                }
            }
            return Err(nar_error("unexpected EOF: early eof"));
        },
    };
    if len > 134217728 {
        proof {
            assert forall|s: Seq<u8>|
                #[trigger] has_at(data@, pos as int, str_enc(s)) && s.len()
                    <= max_string_len() implies false by {
                lemma_str_enc_at(data@, pos as int, s);
            }
        }
        let mut msg = String::new();
        push_str(&mut msg, "string too large: ");
        crate::text::push_u64(&mut msg, len);
        push_str(&mut msg, " bytes");
        proof {
            assert(msg@ =~= "string too large: "@ + decimal(len as nat) + " bytes"@);
        }
        return Err(NiphasError::NarParse(msg));
    }
    let l = len as usize;
    let dl = data.len();
    assert(pos + 8 <= dl);
    let start = pos + 8;
    if data.len() - start < l {
        proof {
            assert forall|s: Seq<u8>|
                #[trigger] has_at(data@, pos as int, str_enc(s)) && s.len()
                    <= max_string_len() implies false by {
                lemma_str_enc_at(data@, pos as int, s);
            }
        }
        return Err(nar_error("unexpected EOF: early eof"));
    }
    let mut v: Vec<u8> = Vec::new();
    let mut i: usize = start;
    while i < start + l
        invariant
            start <= i <= start + l <= data@.len(),
            data@.len() <= usize::MAX,
            v@ == data@.subrange(start as int, i as int),
        decreases start + l - i,
    {
        v.push(data[i]);
        proof {
            assert(data@.subrange(start as int, i + 1) =~= data@.subrange(start as int, i as int).push(
                data@[i as int],
            ));
        }
        i += 1;
    }
    let pad = (8 - l % 8) % 8;
    let after = start + l;
    if data.len() - after < pad {
        proof {
            assert forall|s: Seq<u8>|
                #[trigger] has_at(data@, pos as int, str_enc(s)) && s.len()
                    <= max_string_len() implies false by {
                lemma_str_enc_at(data@, pos as int, s);
            }
        }
        return Err(nar_error("unexpected EOF: early eof"));
    }
    let mut k: usize = 0;
    while k < pad
        invariant
            after + pad <= data@.len(),
            data@.len() <= usize::MAX,
            pos + 8 <= data@.len(),
            after == pos + 8 + l,
            l == le8_value(data@.subrange(pos as int, pos + 8)),
            l <= max_string_len(),
            pad == padding(l as nat),
            k <= pad,
            forall|j: int| after <= j < after + k ==> data@[j] == 0,
        decreases pad - k,
    {
        if data[after + k] != 0 {
            proof {
                reveal(bytes_at);
                assert(data@[after + k as int] != 0);
                assert forall|s: Seq<u8>|
                    #[trigger] has_at(data@, pos as int, str_enc(s)) && s.len()
                        <= max_string_len() implies false by {
                    lemma_str_enc_at(data@, pos as int, s);
                }
            }
            return Err(nar_error("non-zero padding bytes"));
        }
        k += 1;
    }
    proof {
        reveal(has_at);
        let lb = data@.subrange(pos as int, pos + 8);
        lemma_le8_value_bytes(lb);
        assert(v@.len() == l);
        assert(has_at(data@, pos as int, le8_bytes(v@.len() as u64)));
        assert(has_at(data@, start as int, v@));
        assert(data@.subrange(after as int, after + pad) =~= zeros(padding(v@.len())));
        assert(has_at(data@, after as int, zeros(padding(v@.len()))));
        lemma_has_at_concat(data@, pos as int, le8_bytes(v@.len() as u64), v@);
        lemma_has_at_concat(data@, pos as int, le8_bytes(v@.len() as u64) + v@, zeros(padding(v@.len())));
        assert forall|s: Seq<u8>|
            #[trigger] has_at(data@, pos as int, str_enc(s)) && s.len()
                <= max_string_len() implies v@ == s by {
            lemma_str_enc_at(data@, pos as int, s);
        }
    }
    Ok((v, after + pad))
}

// ---------------------------------------------------------------------------
// Strings and tokens
// ---------------------------------------------------------------------------

proof fn lemma_utf8_len(c: Seq<char>)
    ensures
        encode_utf8(c).len() <= 4 * c.len(),
    decreases c.len(),
{
    if c.len() > 0 {
        lemma_utf8_len(c.drop_first());
    }
}

proof fn lemma_tok_len(c: Seq<char>)
    ensures
        tok(c).len() >= 8,
{
    reveal(tok);
    lemma_str_enc_len(encode_utf8(c));
}

proof fn lemma_str_enc_len(s: Seq<u8>)
    ensures
        str_enc(s).len() == 8 + s.len() + padding(s.len()),
        str_enc(s).len() >= 8,
{
    lemma_le8_roundtrip(s.len() as u64);
}

/// The characters of the fixed tokens of the format.
proof fn lemma_token_texts()
    ensures
        "("@ == seq!['('],
        ")"@ == seq![')'],
        "type"@ == seq!['t', 'y', 'p', 'e'],
        "regular"@ == seq!['r', 'e', 'g', 'u', 'l', 'a', 'r'],
        "symlink"@ == seq!['s', 'y', 'm', 'l', 'i', 'n', 'k'],
        "directory"@ == seq!['d', 'i', 'r', 'e', 'c', 't', 'o', 'r', 'y'],
        "executable"@ == seq!['e', 'x', 'e', 'c', 'u', 't', 'a', 'b', 'l', 'e'],
        ""@ == Seq::<char>::empty(),
        "contents"@ == seq!['c', 'o', 'n', 't', 'e', 'n', 't', 's'],
        "target"@ == seq!['t', 'a', 'r', 'g', 'e', 't'],
        "entry"@ == seq!['e', 'n', 't', 'r', 'y'],
        "name"@ == seq!['n', 'a', 'm', 'e'],
        "node"@ == seq!['n', 'o', 'd', 'e'],
        "nix-archive-1"@ == seq!['n', 'i', 'x', '-', 'a', 'r', 'c', 'h', 'i', 'v', 'e', '-', '1'],
{
    reveal_strlit("(");
    reveal_strlit(")");
    reveal_strlit("type");
    reveal_strlit("regular");
    reveal_strlit("symlink");
    reveal_strlit("directory");
    reveal_strlit("executable");
    reveal_strlit("");
    reveal_strlit("contents");
    reveal_strlit("target");
    reveal_strlit("entry");
    reveal_strlit("name");
    reveal_strlit("node");
    reveal_strlit("nix-archive-1");
}

/// Calls `String::from_utf8`, which gives back a string exactly when the bytes are
/// valid UTF-8; the string then holds the characters those bytes encode. On invalid
/// bytes the error's message is handed back; nothing is claimed of its text.
#[verifier::external_body]
pub(crate) fn utf8_text(bytes: Vec<u8>) -> (r: Result<String, String>)
    ensures
        r is Ok <==> valid_utf8(bytes@),
        r matches Ok(s) ==> s@ == decode_utf8(bytes@),
{
    String::from_utf8(bytes).map_err(|e| e.to_string())
}

/// Reads a UTF-8 string at `pos`; on success also says where it ends.
fn read_str(data: &[u8], pos: usize) -> (r: Result<(String, usize), NiphasError>)
    requires
        pos <= data@.len(),
    ensures
        r matches Ok((s, end)) ==> {
            &&& encode_utf8(s@).len() <= max_string_len()
            &&& has_at(data@, pos as int, tok(s@))
            &&& end == pos + tok(s@).len()
            &&& end <= data@.len()
        },
        forall|c: Seq<char>|
            #[trigger] has_at(data@, pos as int, tok(c)) && encode_utf8(c).len()
                <= max_string_len() ==> (r matches Ok((s, _)) && s@ == c),
        r matches Err(e) ==> e is NarParse,
        match text_at(data@, pos as int) {
            Ok((t, e)) => r matches Ok((s, end)) && s@ == t && end == e,
            Err(f) => r matches Err(NiphasError::NarParse(m)) && failure_text(f, m@),
        },
{
    reveal(tok);
    reveal(text_at);
    let (bytes, end) = match read_bytes(data, pos) {
        Ok(x) => x,
        Err(e) => {
            proof {
                assert forall|c: Seq<char>|
                    #[trigger] has_at(data@, pos as int, tok(c)) && encode_utf8(c).len()
                        <= max_string_len() implies false by {
                    assert(has_at(data@, pos as int, str_enc(encode_utf8(c))));
                }
            }
            return Err(e);
        },
    };
    let ghost b = bytes@;
    match utf8_text(bytes) {
        Ok(s) => {
            proof {
                vstd::utf8::decode_utf8_encode_utf8(b);
                assert forall|c: Seq<char>|
                    #[trigger] has_at(data@, pos as int, tok(c)) && encode_utf8(c).len()
                        <= max_string_len() implies s@ == c by {
                    assert(has_at(data@, pos as int, str_enc(encode_utf8(c))));
                    vstd::utf8::encode_utf8_decode_utf8(c);
                }
            }
            Ok((s, end))
        },
        Err(cause) => {
            proof {
                assert forall|c: Seq<char>|
                    #[trigger] has_at(data@, pos as int, tok(c)) && encode_utf8(c).len()
                        <= max_string_len() implies false by {
                    assert(has_at(data@, pos as int, str_enc(encode_utf8(c))));
                    vstd::utf8::encode_utf8_valid_utf8(c);
                }
            }
            let mut msg = String::new();
            push_str(&mut msg, "invalid UTF-8 string: ");
            let ghost head = msg@;
            push_str(&mut msg, cause.as_str());
            proof {
                assert(head =~= "invalid UTF-8 string: "@);
                assert(msg@.take(head.len() as int) =~= head);
            }
            Err(NiphasError::NarParse(msg))
        },
    }
}

/// Reads the token `lit` at `pos` and says where it ends.
fn expect_str(data: &[u8], pos: usize, lit: &str) -> (r: Result<usize, NiphasError>)
    requires
        pos <= data@.len(),
        lit@.len() <= 16,
    ensures
        r matches Ok(end) ==> has_at(data@, pos as int, tok(lit@)) && end == pos + tok(lit@).len()
            && end <= data@.len(),
        has_at(data@, pos as int, tok(lit@)) ==> r is Ok,
        r matches Err(e) ==> e is NarParse,
        match expect_at(data@, pos as int, lit@) {
            Ok(e) => r matches Ok(x) && x == e,
            Err(f) => r matches Err(NiphasError::NarParse(m)) && failure_text(f, m@),
        },
{
    proof {
        lemma_utf8_len(lit@);
        reveal(expect_at);
    }
    let (s, end) = match read_str(data, pos) {
        Ok(x) => x,
        Err(e) => return Err(e),
    };
    if str_eq(s.as_str(), lit) {
        Ok(end)
    } else {
        let mut msg = String::new();
        push_str(&mut msg, "expected '");
        push_str(&mut msg, lit);
        push_str(&mut msg, "', got '");
        push_str(&mut msg, s.as_str());
        push_str(&mut msg, "'");
        proof {
            assert(msg@ =~= "expected '"@ + lit@ + "', got '"@ + s@ + "'"@);
        }
        Err(NiphasError::NarParse(msg))
    }
}

/// Whether `a` comes strictly before `b` in byte order.
pub(crate) fn str_lt(a: &str, b: &str) -> (r: bool)
    ensures
        r == bytes_lt(a.spec_bytes(), b.spec_bytes()),
{
    let x = a.as_bytes();
    let y = b.as_bytes();
    let mut i: usize = 0;
    proof {
        assert(x@.skip(0) =~= x@);
        assert(y@.skip(0) =~= y@);
    }
    while i < x.len() && i < y.len()
        invariant
            x@ == a.spec_bytes(),
            y@ == b.spec_bytes(),
            i <= x@.len(),
            i <= y@.len(),
            bytes_lt(x@, y@) == bytes_lt(x@.skip(i as int), y@.skip(i as int)),
        decreases x@.len() - i,
    {
        if x[i] != y[i] {
            proof {
                assert(x@.skip(i as int)[0] == x@[i as int]);
                assert(y@.skip(i as int)[0] == y@[i as int]);
            }
            return x[i] < y[i];
        }
        proof {
            assert(x@.skip(i as int).skip(1) =~= x@.skip(i + 1));
            assert(y@.skip(i as int).skip(1) =~= y@.skip(i + 1));
            assert(x@.skip(i as int)[0] == x@[i as int]);
            assert(y@.skip(i as int)[0] == y@[i as int]);
        }
        i += 1;
    }
    i == x.len() && i < y.len()
}

/// Validate a directory entry name per NAR spec.
pub fn validate_entry_name(name: &str) -> (r: Result<(), NiphasError>)
    ensures
        r is Ok <==> valid_entry_name_spec(name@),
        r matches Err(e) ==> e matches NiphasError::NarParse(m) && m@ == if name@.len() == 0 {
            "empty entry name"@
        } else if name@ == seq!['.'] || name@ == seq!['.', '.'] {
            "invalid entry name: '"@ + name@ + "'"@
        } else {
            "entry name contains forbidden characters: '"@ + name@ + "'"@
        },
{
    let v = chars_of(name);
    if v.len() == 0 {
        return Err(NiphasError::NarParse("empty entry name".to_string()));
    }
    let dot = (v.len() == 1 && v[0] == '.') || (v.len() == 2 && v[0] == '.' && v[1] == '.');
    proof {
        if v@.len() == 1 && v@[0] == '.' {
            assert(name@ =~= seq!['.']);
        }
        if v@.len() == 2 && v@[0] == '.' && v@[1] == '.' {
            assert(name@ =~= seq!['.', '.']);
        }
    }
    if dot {
        let mut msg = String::new();
        push_str(&mut msg, "invalid entry name: '");
        push_str(&mut msg, name);
        push_str(&mut msg, "'");
        return Err(NiphasError::NarParse(msg));
    }
    let mut i: usize = 0;
    while i < v.len()
        invariant
            v@ == name@,
            i <= v@.len(),
            forall|k: int| 0 <= k < i ==> v@[k] != '/' && v@[k] != '\0',
        decreases v@.len() - i,
    {
        if v[i] == '/' || v[i] == '\0' {
            let mut msg = String::new();
            push_str(&mut msg, "entry name contains forbidden characters: '");
            push_str(&mut msg, name);
            push_str(&mut msg, "'");
            return Err(NiphasError::NarParse(msg));
        }
        i += 1;
    }
    Ok(())
}

// ---------------------------------------------------------------------------
// Parsing
// ---------------------------------------------------------------------------

fn parse_regular_rest(
    data: &[u8],
    pos: usize,
    Ghost(hyp): Ghost<Option<(bool, Seq<u8>)>>,
) -> (r: Result<(NarNode, usize), NiphasError>)
    requires
        pos <= data@.len(),
        hyp matches Some((e, c)) ==> c.len() <= max_string_len() && has_at(
            data@,
            pos as int,
            regular_rest(e, c),
        ),
    ensures
        r matches Ok((n, end)) ==> n matches NarNode::Regular { executable, contents } && {
            &&& contents@.len() <= max_string_len()
            &&& has_at(data@, pos as int, regular_rest(executable, contents@))
            &&& end == pos + regular_rest(executable, contents@).len()
            &&& end <= data@.len()
        },
        hyp matches Some((e, c)) ==> (r matches Ok((n, _)) && n matches NarNode::Regular {
            executable,
            contents,
        } && executable == e && contents@ == c),
        r matches Err(e) ==> e is NarParse,
        match regular_at(data@, pos as int) {
            Ok((t, e)) => r matches Ok((n, end)) && n.tree() == t && end == e,
            Err(f) => r matches Err(NiphasError::NarParse(m)) && failure_text(f, m@),
        },
{
    proof {
        reveal(regular_at);
        lemma_token_texts();
        lemma_utf8_len("executable"@);
        lemma_utf8_len("contents"@);
        if let Some((e, c)) = hyp {
            let x = if e {
                tok("executable"@) + tok(""@)
            } else {
                Seq::empty()
            };
            lemma_has_at_concat(data@, pos as int, x + tok("contents"@) + str_enc(c), tok(")"@));
            lemma_has_at_concat(data@, pos as int, x + tok("contents"@), str_enc(c));
            lemma_has_at_concat(data@, pos as int, x, tok("contents"@));
            if e {
                lemma_has_at_concat(data@, pos as int, tok("executable"@), tok(""@));
            } else {
                assert(x + tok("contents"@) =~= tok("contents"@));
            }
        }
    }
    let (next, p1) = match read_str(data, pos) {
        Ok(x) => x,
        Err(e) => return Err(e),
    };
    let executable: bool;
    let p3: usize;
    if str_eq(next.as_str(), "executable") {
        let p2 = match expect_str(data, p1, "") {
            Ok(p) => p,
            Err(e) => return Err(e),
        };
        p3 = match expect_str(data, p2, "contents") {
            Ok(p) => p,
            Err(e) => return Err(e),
        };
        executable = true;
    } else if str_eq(next.as_str(), "contents") {
        p3 = p1;
        executable = false;
    } else {
        let mut msg = String::new();
        push_str(&mut msg, "expected 'executable' or 'contents', got '");
        push_str(&mut msg, next.as_str());
        push_str(&mut msg, "'");
        proof {
            assert(msg@ =~= "expected 'executable' or 'contents', got '"@ + next@ + "'"@);
        }
        return Err(NiphasError::NarParse(msg));
    }
    let (contents, p4) = match read_bytes(data, p3) {
        Ok(x) => x,
        Err(e) => return Err(e),
    };
    let end = match expect_str(data, p4, ")") {
        Ok(p) => p,
        Err(e) => return Err(e),
    };
    proof {
        let x = if executable {
            tok("executable"@) + tok(""@)
        } else {
            Seq::empty()
        };
        if executable {
            lemma_has_at_concat(data@, pos as int, tok("executable"@), tok(""@));
            lemma_has_at_concat(data@, pos as int, x, tok("contents"@));
        } else {
            assert(x + tok("contents"@) =~= tok("contents"@));
        }
        lemma_has_at_concat(data@, pos as int, x + tok("contents"@), str_enc(contents@));
        lemma_has_at_concat(data@, pos as int, x + tok("contents"@) + str_enc(contents@), tok(")"@));
    }
    Ok((NarNode::Regular { executable, contents }, end))
}

fn parse_symlink_rest(
    data: &[u8],
    pos: usize,
    Ghost(hyp): Ghost<Option<Seq<char>>>,
) -> (r: Result<(NarNode, usize), NiphasError>)
    requires
        pos <= data@.len(),
        hyp matches Some(t) ==> encode_utf8(t).len() <= max_string_len() && has_at(
            data@,
            pos as int,
            symlink_rest(t),
        ),
    ensures
        r matches Ok((n, end)) ==> n matches NarNode::Symlink { target } && {
            &&& encode_utf8(target@).len() <= max_string_len()
            &&& has_at(data@, pos as int, symlink_rest(target@))
            &&& end == pos + symlink_rest(target@).len()
            &&& end <= data@.len()
        },
        hyp matches Some(t) ==> (r matches Ok((n, _)) && n matches NarNode::Symlink { target }
            && target@ == t),
        r matches Err(e) ==> e is NarParse,
        match symlink_at(data@, pos as int) {
            Ok((t, e)) => r matches Ok((n, end)) && n.tree() == t && end == e,
            Err(f) => r matches Err(NiphasError::NarParse(m)) && failure_text(f, m@),
        },
{
    proof {
        reveal(symlink_at);
        lemma_token_texts();
        if let Some(t) = hyp {
            lemma_has_at_concat(data@, pos as int, tok("target"@) + tok(t), tok(")"@));
            lemma_has_at_concat(data@, pos as int, tok("target"@), tok(t));
        }
    }
    let p1 = match expect_str(data, pos, "target") {
        Ok(p) => p,
        Err(e) => return Err(e),
    };
    let (target, p2) = match read_str(data, p1) {
        Ok(x) => x,
        Err(e) => return Err(e),
    };
    let end = match expect_str(data, p2, ")") {
        Ok(p) => p,
        Err(e) => return Err(e),
    };
    proof {
        lemma_has_at_concat(data@, pos as int, tok("target"@), tok(target@));
        lemma_has_at_concat(data@, pos as int, tok("target"@) + tok(target@), tok(")"@));
    }
    Ok((NarNode::Symlink { target }, end))
}

proof fn lemma_encode_entries_append(a: Seq<(Seq<char>, NarTree)>, b: Seq<(Seq<char>, NarTree)>)
    ensures
        encode_entries(a + b) == encode_entries(a) + encode_entries(b),
    decreases b.len(),
{
    reveal(encode_entries);
    if b.len() == 0 {
        assert(a + b =~= a);
        assert(encode_entries(a) + encode_entries(b) =~= encode_entries(a));
    } else {
        assert((a + b).drop_last() =~= a + b.drop_last());
        assert((a + b).last() == b.last());
        lemma_encode_entries_append(a, b.drop_last());
        let t = encode_entry(b.last());
        assert(encode_entries(a + b) == encode_entries(a + b.drop_last()) + t);
        assert(encode_entries(b) == encode_entries(b.drop_last()) + t);
        assert(encode_entries(a) + encode_entries(b.drop_last()) + t =~= encode_entries(a) + (
        encode_entries(b.drop_last()) + t));
    }
}

proof fn lemma_entries_tree_index(v: Seq<NarEntry>)
    ensures
        entries_tree(v).len() == v.len(),
        forall|i: int|
            0 <= i < v.len() ==> #[trigger] entries_tree(v)[i] == (v[i].name@, v[i].node.tree()),
    decreases v.len(),
{
    if v.len() > 0 {
        lemma_entries_tree_index(v.drop_last());
    }
}

proof fn lemma_valid_entries_at(es: Seq<(Seq<char>, NarTree)>, level: nat, max_depth: nat, k: int)
    requires
        valid_entries(es, level, max_depth),
        0 <= k < es.len(),
    ensures
        valid_entry_name_spec(es[k].0),
        encode_utf8(es[k].0).len() <= max_string_len(),
        valid_tree(es[k].1, level, max_depth),
        k > 0 ==> bytes_lt(encode_utf8(es[k - 1].0), encode_utf8(es[k].0)),
    decreases es.len(),
{
    if k < es.len() - 1 {
        lemma_valid_entries_at(es.drop_last(), level, max_depth, k);
    }
}

/// Where the pieces of a directory body lie when its entries are `es`.
proof fn lemma_dir_layout(data: Seq<u8>, pos: int, es: Seq<(Seq<char>, NarTree)>, k: int)
    requires
        has_at(data, pos, dir_rest(es)),
        0 <= k <= es.len(),
    ensures
        has_at(data, pos, encode_entries(es.take(k))),
        k < es.len() ==> has_at(data, pos + encode_entries(es.take(k)).len(), encode_entry(es[k])),
        k == es.len() ==> has_at(data, pos + encode_entries(es.take(k)).len(), tok(")"@)),
{
    let pre = encode_entries(es.take(k));
    let post = encode_entries(es.skip(k));
    assert(es =~= es.take(k) + es.skip(k));
    lemma_encode_entries_append(es.take(k), es.skip(k));
    assert(encode_entries(es) == pre + post);
    assert(dir_rest(es) == pre + post + tok(")"@));
    assert(pre + post + tok(")"@) =~= pre + (post + tok(")"@)));
    lemma_has_at_concat(data, pos, pre, post + tok(")"@));
    lemma_has_at_concat(data, pos + pre.len(), post, tok(")"@));
    if k < es.len() {
        let x = es[k];
        assert(es.skip(k) =~= seq![x] + es.skip(k + 1));
        lemma_encode_entries_append(seq![x], es.skip(k + 1));
        assert(seq![x].drop_last() =~= Seq::<(Seq<char>, NarTree)>::empty());
        assert(encode_entries(seq![x]) =~= encode_entry(x)) by {
            reveal(encode_entries);
            assert(encode_entries(Seq::<(Seq<char>, NarTree)>::empty()) =~= Seq::<u8>::empty());
        }
        lemma_has_at_concat(data, pos + pre.len(), encode_entry(x), encode_entries(es.skip(k + 1)));
    } else {
        assert(es.skip(k) =~= Seq::<(Seq<char>, NarTree)>::empty());
        assert(post =~= Seq::<u8>::empty()) by {
            reveal(encode_entries);
        }
        assert(post + tok(")"@) =~= tok(")"@));
    }
}

/// Where the pieces of one directory entry lie.
proof fn lemma_entry_layout(data: Seq<u8>, p: int, name: Seq<char>, t: NarTree)
    ensures
        encode_entry((name, t)).len() == tok("entry"@).len() + tok("("@).len() + tok("name"@).len()
            + tok(name).len() + tok("node"@).len() + encode_tree(t).len() + tok(")"@).len(),
        has_at(data, p, encode_entry((name, t))) <==> {
            let q1 = p + tok("entry"@).len();
            let q2 = q1 + tok("("@).len();
            let q3 = q2 + tok("name"@).len();
            let q4 = q3 + tok(name).len();
            let q5 = q4 + tok("node"@).len();
            let q6 = q5 + encode_tree(t).len();
            &&& has_at(data, p, tok("entry"@))
            &&& has_at(data, q1, tok("("@))
            &&& has_at(data, q2, tok("name"@))
            &&& has_at(data, q3, tok(name))
            &&& has_at(data, q4, tok("node"@))
            &&& has_at(data, q5, encode_tree(t))
            &&& has_at(data, q6, tok(")"@))
        },
{
    let a = tok("entry"@);
    let b = tok("("@);
    let c = tok("name"@);
    let d = tok(name);
    let e = tok("node"@);
    let f = encode_tree(t);
    let g = tok(")"@);
    assert(entry_head(name) == a + b + c + d + e);
    assert(encode_entry((name, t)) =~= a + b + c + d + e + f + g) by {
        reveal(encode_tree);
        reveal(encode_entries);
    }
    lemma_has_at_concat(data, p, a + b + c + d + e + f, g);
    lemma_has_at_concat(data, p, a + b + c + d + e, f);
    lemma_has_at_concat(data, p, a + b + c + d, e);
    lemma_has_at_concat(data, p, a + b + c, d);
    lemma_has_at_concat(data, p, a + b, c);
    lemma_has_at_concat(data, p, a, b);
}

/// The type tag of a tree.
pub open spec fn type_tag(t: NarTree) -> Seq<char> {
    match t {
        NarTree::Regular { .. } => "regular"@,
        NarTree::Symlink { .. } => "symlink"@,
        NarTree::Directory { .. } => "directory"@,
    }
}

/// What follows the type tag of a tree.
pub open spec fn tag_rest(t: NarTree) -> Seq<u8> {
    match t {
        NarTree::Regular { executable, contents } => regular_rest(executable, contents),
        NarTree::Symlink { target } => symlink_rest(target),
        NarTree::Directory { entries } => dir_rest(entries),
    }
}

/// Where the pieces of a node lie.
#[verifier::rlimit(50)]
proof fn lemma_node_layout(data: Seq<u8>, p: int, t: NarTree)
    ensures
        encode_tree(t).len() == tok("("@).len() + tok("type"@).len() + tok(type_tag(t)).len()
            + tag_rest(t).len(),
        has_at(data, p, encode_tree(t)) <==> {
            let q1 = p + tok("("@).len();
            let q2 = q1 + tok("type"@).len();
            let q3 = q2 + tok(type_tag(t)).len();
            &&& has_at(data, p, tok("("@))
            &&& has_at(data, q1, tok("type"@))
            &&& has_at(data, q2, tok(type_tag(t)))
            &&& has_at(data, q3, tag_rest(t))
        },
{
    reveal(encode_tree);
    reveal(encode_entries);
    match t {
        NarTree::Directory { entries } => {
            assert(node_body(t) =~= tok(type_tag(t)) + tag_rest(t));
        },
        _ => {
            assert(node_body(t) =~= tok(type_tag(t)) + tag_rest(t));
        },
    }
    lemma_has_at_concat(data, p, tok("("@) + tok("type"@), node_body(t));
    lemma_has_at_concat(data, p, tok("("@), tok("type"@));
    lemma_has_at_concat(data, p + tok("("@).len() + tok("type"@).len(), tok(type_tag(t)), tag_rest(t));
}

fn parse_node_at(
    data: &[u8],
    pos: usize,
    level: u16,
    max_depth: u16,
    Ghost(hyp): Ghost<Option<NarTree>>,
) -> (r: Result<(NarNode, usize), NiphasError>)
    requires
        pos <= data@.len(),
        level <= max_depth,
        hyp matches Some(t) ==> valid_tree(t, level as nat, max_depth as nat) && has_at(
            data@,
            pos as int,
            encode_tree(t),
        ),
    ensures
        r matches Ok((n, end)) ==> {
            &&& valid_tree(n.tree(), level as nat, max_depth as nat)
            &&& has_at(data@, pos as int, encode_tree(n.tree()))
            &&& end == pos + encode_tree(n.tree()).len()
            &&& end <= data@.len()
        },
        hyp matches Some(t) ==> (r matches Ok((n, _)) && n.tree() == t),
        r matches Err(e) ==> e is NarParse,
        match node_at(data@, pos as int, level as nat, max_depth as nat) {
            Ok((t, e)) => r matches Ok((n, end)) && n.tree() == t && end == e,
            Err(f) => r matches Err(NiphasError::NarParse(m)) && failure_text(f, m@),
        },
    decreases data@.len() - pos,
{
    proof {
        lemma_token_texts();
        lemma_utf8_len("regular"@);
        lemma_utf8_len("symlink"@);
        lemma_utf8_len("directory"@);
        lemma_tok_len("("@);
        if let Some(t) = hyp {
            lemma_node_layout(data@, pos as int, t);
            lemma_utf8_len(type_tag(t));
        }
    }
    let p1 = match expect_str(data, pos, "(") {
        Ok(p) => p,
        Err(e) => return Err(e),
    };
    let p2 = match expect_str(data, p1, "type") {
        Ok(p) => p,
        Err(e) => return Err(e),
    };
    let (ty, p3) = match read_str(data, p2) {
        Ok(x) => x,
        Err(e) => return Err(e),
    };
    proof {
        if let Some(t) = hyp {
            assert(has_at(data@, p2 as int, tok(type_tag(t))));
            assert(ty@ == type_tag(t));
        }
    }
    if str_eq(ty.as_str(), "regular") {
        let ghost sub = match hyp {
            Some(NarTree::Regular { executable, contents }) => Some((executable, contents)),
            _ => None,
        };
        let (n, end) = match parse_regular_rest(data, p3, Ghost(sub)) {
            Ok(x) => x,
            Err(e) => return Err(e),
        };
        proof {
            lemma_node_layout(data@, pos as int, n.tree());
        }
        Ok((n, end))
    } else if str_eq(ty.as_str(), "symlink") {
        let ghost sub = match hyp {
            Some(NarTree::Symlink { target }) => Some(target),
            _ => None,
        };
        let (n, end) = match parse_symlink_rest(data, p3, Ghost(sub)) {
            Ok(x) => x,
            Err(e) => return Err(e),
        };
        proof {
            lemma_node_layout(data@, pos as int, n.tree());
        }
        Ok((n, end))
    } else if str_eq(ty.as_str(), "directory") {
        if level >= max_depth {
            let mut msg = String::new();
            push_str(&mut msg, "directory nesting depth exceeds limit (");
            crate::text::push_u64(&mut msg, max_depth as u64);
            push_str(&mut msg, ")");
            proof {
                assert(msg@ =~= depth_error(max_depth as nat));
            }
            return Err(NiphasError::NarParse(msg));
        }
        let ghost sub = match hyp {
            Some(NarTree::Directory { entries }) => Some(entries),
            _ => None,
        };
        let (entries, end) = match parse_dir_rest(data, p3, level + 1, max_depth, Ghost(sub)) {
            Ok(x) => x,
            Err(e) => return Err(e),
        };
        let n = NarNode::Directory { entries };
        proof {
            lemma_node_layout(data@, pos as int, n.tree());
        }
        Ok((n, end))
    } else {
        let mut msg = String::new();
        push_str(&mut msg, "unknown node type: '");
        push_str(&mut msg, ty.as_str());
        push_str(&mut msg, "'");
        proof {
            assert(msg@ =~= "unknown node type: '"@ + ty@ + "'"@);
        }
        Err(NiphasError::NarParse(msg))
    }
}

fn parse_dir_rest(
    data: &[u8],
    pos: usize,
    level: u16,
    max_depth: u16,
    Ghost(hyp): Ghost<Option<Seq<(Seq<char>, NarTree)>>>,
) -> (r: Result<(Vec<NarEntry>, usize), NiphasError>)
    requires
        pos <= data@.len(),
        level <= max_depth,
        hyp matches Some(es) ==> valid_entries(es, level as nat, max_depth as nat) && has_at(
            data@,
            pos as int,
            dir_rest(es),
        ),
    ensures
        r matches Ok((v, end)) ==> {
            &&& valid_entries(entries_tree(v@), level as nat, max_depth as nat)
            &&& has_at(data@, pos as int, dir_rest(entries_tree(v@)))
            &&& end == pos + dir_rest(entries_tree(v@)).len()
            &&& end <= data@.len()
        },
        hyp matches Some(es) ==> (r matches Ok((v, _)) && entries_tree(v@) == es),
        r matches Err(e) ==> e is NarParse,
        match entries_at(data@, pos as int, level as nat, max_depth as nat, Seq::empty()) {
            Ok((t, e)) => r matches Ok((v, end)) && t == NarTree::Directory {
                entries: entries_tree(v@),
            } && end == e,
            Err(f) => r matches Err(NiphasError::NarParse(m)) && failure_text(f, m@),
        },
    decreases data@.len() - pos,
{
    proof {
        lemma_token_texts();
        lemma_utf8_len("entry"@);
        lemma_utf8_len(")"@);
        assert(encode_entries(entries_tree(Seq::<NarEntry>::empty())) =~= Seq::<u8>::empty()) by {
            reveal(encode_entries);
        }
        lemma_has_at_bounds(data@, pos as int, Seq::empty());
    }
    let mut entries: Vec<NarEntry> = Vec::new();
    let mut p: usize = pos;
    loop
        invariant
            pos <= p <= data@.len(),
            level <= max_depth,
            has_at(data@, pos as int, encode_entries(entries_tree(entries@))),
            p == pos + encode_entries(entries_tree(entries@)).len(),
            valid_entries(entries_tree(entries@), level as nat, max_depth as nat),
            entries_tree(entries@).len() == entries@.len(),
            hyp matches Some(es) ==> {
                &&& valid_entries(es, level as nat, max_depth as nat)
                &&& has_at(data@, pos as int, dir_rest(es))
                &&& entries@.len() <= es.len()
                &&& entries_tree(entries@) == es.take(entries@.len() as int)
            },
            entries_at(data@, pos as int, level as nat, max_depth as nat, Seq::empty())
                == entries_at(data@, p as int, level as nat, max_depth as nat, entries_tree(entries@)),
        decreases data@.len() - p,
    {
        let ghost k = entries@.len() as int;
        proof {
            lemma_token_texts();
            lemma_utf8_len("entry"@);
            lemma_utf8_len(")"@);
            lemma_tok_len("("@);
            lemma_entries_tree_index(entries@);
            if let Some(es) = hyp {
                lemma_dir_layout(data@, pos as int, es, k);
                if k < es.len() {
                    lemma_entry_layout(data@, p as int, es[k].0, es[k].1);
                    lemma_valid_entries_at(es, level as nat, max_depth as nat, k);
                    lemma_utf8_len("name"@);
                    lemma_utf8_len("node"@);
                    if k > 0 {
                        assert(entries_tree(entries@)[k - 1] == es.take(k)[k - 1]);
                    }
                }
            }
        }
        let (next, p1) = match read_str(data, p) {
            Ok(x) => x,
            Err(e) => return Err(e),
        };
        if str_eq(next.as_str(), ")") {
            proof {
                if let Some(es) = hyp {
                    assert(k == es.len());
                    assert(es.take(k) =~= es);
                }
                lemma_has_at_concat(data@, pos as int, encode_entries(entries_tree(entries@)), tok(")"@));
            }
            return Ok((entries, p1));
        }
        if !str_eq(next.as_str(), "entry") {
            let mut msg = String::new();
            push_str(&mut msg, "expected 'entry' or ')', got '");
            push_str(&mut msg, next.as_str());
            push_str(&mut msg, "'");
            proof {
                assert(msg@ =~= "expected 'entry' or ')', got '"@ + next@ + "'"@);
            }
            return Err(NiphasError::NarParse(msg));
        }
        let p2 = match expect_str(data, p1, "(") {
            Ok(q) => q,
            Err(e) => return Err(e),
        };
        let p3 = match expect_str(data, p2, "name") {
            Ok(q) => q,
            Err(e) => return Err(e),
        };
        let (name, p4) = match read_str(data, p3) {
            Ok(x) => x,
            Err(e) => return Err(e),
        };
        match validate_entry_name(name.as_str()) {
            Ok(()) => {},
            Err(e) => return Err(e),
        }
        if entries.len() > 0 {
            let prev = &entries[entries.len() - 1].name;
            if !str_lt(prev.as_str(), name.as_str()) {
                let mut msg = String::new();
                push_str(&mut msg, "directory entries not sorted: '");
                push_str(&mut msg, prev.as_str());
                push_str(&mut msg, "' followed by '");
                push_str(&mut msg, name.as_str());
                push_str(&mut msg, "'");
                proof {
                    assert(msg@ =~= "directory entries not sorted: '"@ + prev@ + "' followed by '"@
                        + name@ + "'"@);
                }
                return Err(NiphasError::NarParse(msg));
            }
        }
        let p5 = match expect_str(data, p4, "node") {
            Ok(q) => q,
            Err(e) => return Err(e),
        };
        let ghost sub = match hyp {
            Some(es) => Some(es[k].1),
            None => None,
        };
        let (node, p6) = match parse_node_at(data, p5, level, max_depth, Ghost(sub)) {
            Ok(x) => x,
            Err(e) => return Err(e),
        };
        let p7 = match expect_str(data, p6, ")") {
            Ok(q) => q,
            Err(e) => return Err(e),
        };
        let ghost old_entries = entries@;
        entries.push(NarEntry { name, node });
        proof {
            let et = entries_tree(entries@);
            lemma_entries_tree_index(old_entries);
            assert(entries@.drop_last() =~= old_entries);
            assert(et.drop_last() =~= entries_tree(old_entries));
            let x = et.last();
            assert(encode_entries(et) == encode_entries(et.drop_last()) + encode_entry(x)) by {
                reveal(encode_entries);
            }
            lemma_entry_layout(data@, p as int, x.0, x.1);
            lemma_has_at_concat(
                data@,
                pos as int,
                encode_entries(entries_tree(old_entries)),
                encode_entry(x),
            );
            if let Some(es) = hyp {
                assert(et =~= es.take(k + 1));
            }
        }
        p = p7;
    }
}

// ---------------------------------------------------------------------------
// Trees
// ---------------------------------------------------------------------------

/// What a NAR node holds, as mathematical values.
pub enum NarTree {
    Regular { executable: bool, contents: Seq<u8> },
    Symlink { target: Seq<char> },
    Directory { entries: Seq<(Seq<char>, NarTree)> },
}

/// A parsed NAR node.
#[derive(Debug, PartialEq)]
pub enum NarNode {
    Regular { executable: bool, contents: Vec<u8> },
    Symlink { target: String },
    Directory { entries: Vec<NarEntry> },
}

/// A directory entry in a NAR archive.
#[derive(Debug, PartialEq)]
pub struct NarEntry {
    pub name: String,
    pub node: NarNode,
}

impl NarNode {
    /// The tree this node holds.
    pub open spec fn tree(self) -> NarTree
        decreases self, 1nat,
    {
        match self {
            NarNode::Regular { executable, contents } => NarTree::Regular {
                executable,
                contents: contents@,
            },
            NarNode::Symlink { target } => NarTree::Symlink { target: target@ },
            NarNode::Directory { entries } => NarTree::Directory {
                entries: entries_tree(entries@),
            },
        }
    }
}

/// The names and trees of directory entries.
pub open spec fn entries_tree(es: Seq<NarEntry>) -> Seq<(Seq<char>, NarTree)>
    decreases es, 0nat,
{
    if es.len() == 0 {
        Seq::empty()
    } else {
        entries_tree(es.drop_last()).push((es.last().name@, es.last().node.tree()))
    }
}

// ---------------------------------------------------------------------------
// Uniqueness of the wire form
// ---------------------------------------------------------------------------

/// Two byte strings on the wire at one place are the same string.
proof fn lemma_str_enc_unique(data: Seq<u8>, pos: int, a: Seq<u8>, b: Seq<u8>)
    requires
        has_at(data, pos, str_enc(a)),
        has_at(data, pos, str_enc(b)),
        a.len() <= max_string_len(),
        b.len() <= max_string_len(),
    ensures
        a == b,
{
    lemma_str_enc_at(data, pos, a);
    lemma_str_enc_at(data, pos, b);
}

/// Two text tokens on the wire at one place are the same text.
proof fn lemma_tok_unique(data: Seq<u8>, pos: int, a: Seq<char>, b: Seq<char>)
    requires
        has_at(data, pos, tok(a)),
        has_at(data, pos, tok(b)),
        encode_utf8(a).len() <= max_string_len(),
        encode_utf8(b).len() <= max_string_len(),
    ensures
        a == b,
{
    reveal(tok);
    lemma_str_enc_unique(data, pos, encode_utf8(a), encode_utf8(b));
    vstd::utf8::encode_utf8_decode_utf8(a);
    vstd::utf8::encode_utf8_decode_utf8(b);
}

/// A fixed token of the format is short enough for `lemma_tok_unique`.
proof fn lemma_short_tok(c: Seq<char>)
    requires
        c.len() <= 16,
    ensures
        encode_utf8(c).len() <= max_string_len(),
{
    lemma_utf8_len(c);
}

/// Dropping the first entry of a directory keeps it valid.
proof fn lemma_valid_entries_skip(es: Seq<(Seq<char>, NarTree)>, level: nat, max_depth: nat)
    requires
        valid_entries(es, level, max_depth),
        es.len() > 0,
    ensures
        valid_entries(es.skip(1), level, max_depth),
    decreases es.len(),
{
    if es.len() > 1 {
        let s = es.skip(1);
        assert(s.drop_last() =~= es.drop_last().skip(1));
        lemma_valid_entries_skip(es.drop_last(), level, max_depth);
        assert(s.last() == es.last());
        if s.len() > 1 {
            assert(s[s.len() - 2] == es[es.len() - 2]);
        }
    } else {
        assert(es.skip(1) =~= Seq::<(Seq<char>, NarTree)>::empty());
    }
}

/// The wire form of entries, split after the first.
proof fn lemma_encode_entries_first(es: Seq<(Seq<char>, NarTree)>)
    requires
        es.len() > 0,
    ensures
        encode_entries(es) == encode_entry(es[0]) + encode_entries(es.skip(1)),
{
    assert(es =~= seq![es[0]] + es.skip(1));
    lemma_encode_entries_append(seq![es[0]], es.skip(1));
    assert(seq![es[0]].drop_last() =~= Seq::<(Seq<char>, NarTree)>::empty());
    assert(encode_entries(seq![es[0]]) =~= encode_entry(es[0])) by {
        reveal(encode_entries);
        assert(encode_entries(Seq::<(Seq<char>, NarTree)>::empty()) =~= Seq::<u8>::empty());
    }
}

/// Two nodes the format allows, on the wire at one place, are the same node.
#[verifier::rlimit(60)]
proof fn lemma_tree_unique(data: Seq<u8>, pos: int, t1: NarTree, t2: NarTree, level: nat, max_depth: nat)
    requires
        valid_tree(t1, level, max_depth),
        valid_tree(t2, level, max_depth),
        has_at(data, pos, encode_tree(t1)),
        has_at(data, pos, encode_tree(t2)),
    ensures
        t1 == t2,
    decreases t1,
{
    lemma_token_texts();
    lemma_node_layout(data, pos, t1);
    lemma_node_layout(data, pos, t2);
    let q2 = pos + tok("("@).len() + tok("type"@).len();
    lemma_short_tok(type_tag(t1));
    lemma_short_tok(type_tag(t2));
    lemma_tok_unique(data, q2, type_tag(t1), type_tag(t2));
    let q3 = q2 + tok(type_tag(t1)).len();
    match t1 {
        NarTree::Regular { executable: e1, contents: c1 } => {
            assert(t2 is Regular) by {
                if !(t2 is Regular) {
                    assert(type_tag(t1)[0] != type_tag(t2)[0]);
                }
            }
            let e2 = t2->executable;
            let c2 = t2->contents;
            let x = tok("executable"@);
            let y = tok(""@);
            let c = tok("contents"@);
            let z = tok(")"@);
            lemma_short_tok("executable"@);
            lemma_short_tok("contents"@);
            lemma_short_tok(""@);
            if e1 != e2 {
                if e1 {
                    assert(regular_rest(e1, c1) =~= x + (y + c + str_enc(c1) + z));
                    assert(regular_rest(e2, c2) =~= c + (str_enc(c2) + z));
                    lemma_has_at_concat(data, q3, x, y + c + str_enc(c1) + z);
                    lemma_has_at_concat(data, q3, c, str_enc(c2) + z);
                    lemma_tok_unique(data, q3, "executable"@, "contents"@);
                } else {
                    assert(regular_rest(e2, c2) =~= x + (y + c + str_enc(c2) + z));
                    assert(regular_rest(e1, c1) =~= c + (str_enc(c1) + z));
                    lemma_has_at_concat(data, q3, x, y + c + str_enc(c2) + z);
                    lemma_has_at_concat(data, q3, c, str_enc(c1) + z);
                    lemma_tok_unique(data, q3, "executable"@, "contents"@);
                }
                assert("executable"@[0] != "contents"@[0]);
            }
            let pre = if e1 { x + y } else { Seq::<u8>::empty() };
            assert(regular_rest(e1, c1) =~= pre + c + (str_enc(c1) + z));
            assert(regular_rest(e2, c2) =~= pre + c + (str_enc(c2) + z));
            lemma_has_at_concat(data, q3, pre + c, str_enc(c1) + z);
            lemma_has_at_concat(data, q3, pre + c, str_enc(c2) + z);
            lemma_has_at_concat(data, q3 + (pre + c).len(), str_enc(c1), z);
            lemma_has_at_concat(data, q3 + (pre + c).len(), str_enc(c2), z);
            lemma_str_enc_unique(data, q3 + (pre + c).len(), c1, c2);
        },
        NarTree::Symlink { target: s1 } => {
            assert(t2 is Symlink) by {
                if !(t2 is Symlink) {
                    assert(type_tag(t1)[0] != type_tag(t2)[0]);
                }
            }
            let s2 = t2->target;
            let g = tok("target"@);
            lemma_has_at_concat(data, q3, g, tok(s1) + tok(")"@));
            lemma_has_at_concat(data, q3, g, tok(s2) + tok(")"@));
            assert(symlink_rest(s1) =~= g + (tok(s1) + tok(")"@)));
            assert(symlink_rest(s2) =~= g + (tok(s2) + tok(")"@)));
            lemma_has_at_concat(data, q3 + g.len(), tok(s1), tok(")"@));
            lemma_has_at_concat(data, q3 + g.len(), tok(s2), tok(")"@));
            lemma_tok_unique(data, q3 + g.len(), s1, s2);
        },
        NarTree::Directory { entries: es1 } => {
            assert(t2 is Directory) by {
                if !(t2 is Directory) {
                    assert(type_tag(t1)[0] != type_tag(t2)[0]);
                }
            }
            let es2 = t2->entries;
            lemma_entries_unique(data, q3, es1, es2, level + 1, max_depth);
        },
    }
}

/// Two directory bodies the format allows, on the wire at one place, hold the same
/// entries.
#[verifier::rlimit(60)]
proof fn lemma_entries_unique(
    data: Seq<u8>,
    pos: int,
    es1: Seq<(Seq<char>, NarTree)>,
    es2: Seq<(Seq<char>, NarTree)>,
    level: nat,
    max_depth: nat,
)
    requires
        valid_entries(es1, level, max_depth),
        valid_entries(es2, level, max_depth),
        has_at(data, pos, dir_rest(es1)),
        has_at(data, pos, dir_rest(es2)),
    ensures
        es1 == es2,
    decreases es1,
{
    lemma_token_texts();
    lemma_short_tok(")"@);
    lemma_short_tok("entry"@);
    let e0 = Seq::<(Seq<char>, NarTree)>::empty();
    assert(encode_entries(e0) =~= Seq::<u8>::empty()) by {
        reveal(encode_entries);
    }
    lemma_dir_layout(data, pos, es1, 0);
    lemma_dir_layout(data, pos, es2, 0);
    assert(es1.take(0) =~= e0);
    assert(es2.take(0) =~= e0);
    if es1.len() == 0 || es2.len() == 0 {
        if es1.len() != 0 || es2.len() != 0 {
            let x = if es1.len() != 0 { es1[0] } else { es2[0] };
            lemma_entry_layout(data, pos, x.0, x.1);
            lemma_tok_unique(data, pos, "entry"@, ")"@);
            assert(false);
        }
        assert(es1 =~= es2);
    } else {
        let x1 = es1[0];
        let x2 = es2[0];
        lemma_entry_layout(data, pos, x1.0, x1.1);
        lemma_entry_layout(data, pos, x2.0, x2.1);
        lemma_valid_entries_at(es1, level, max_depth, 0);
        lemma_valid_entries_at(es2, level, max_depth, 0);
        let q3 = pos + tok("entry"@).len() + tok("("@).len() + tok("name"@).len();
        lemma_tok_unique(data, q3, x1.0, x2.0);
        let q5 = q3 + tok(x1.0).len() + tok("node"@).len();
        lemma_tree_unique(data, q5, x1.1, x2.1, level, max_depth);
        assert(x1 == x2);
        let r1 = es1.skip(1);
        let r2 = es2.skip(1);
        let n = pos + encode_entry(x1).len();
        lemma_encode_entries_first(es1);
        lemma_encode_entries_first(es2);
        assert(dir_rest(es1) =~= encode_entry(x1) + dir_rest(r1));
        assert(dir_rest(es2) =~= encode_entry(x1) + dir_rest(r2));
        lemma_has_at_concat(data, pos, encode_entry(x1), dir_rest(r1));
        lemma_has_at_concat(data, pos, encode_entry(x1), dir_rest(r2));
        lemma_valid_entries_skip(es1, level, max_depth);
        lemma_valid_entries_skip(es2, level, max_depth);
        lemma_entries_unique(data, n, r1, r2, level, max_depth);
        assert(es1 =~= seq![x1] + r1);
        assert(es2 =~= seq![x2] + r2);
    }
}

/// An archive's bytes determine its tree: two archives the format allows cannot both
/// begin the same input unless they are the same archive.
pub proof fn lemma_archive_unique(data: Seq<u8>, t1: NarTree, t2: NarTree, max_depth: nat)
    requires
        valid_tree(t1, 0, max_depth),
        valid_tree(t2, 0, max_depth),
        has_at(data, 0, encode_archive(t1)),
        has_at(data, 0, encode_archive(t2)),
    ensures
        t1 == t2,
{
    let m = tok("nix-archive-1"@);
    lemma_has_at_concat(data, 0, m, encode_tree(t1));
    lemma_has_at_concat(data, 0, m, encode_tree(t2));
    lemma_tree_unique(data, m.len() as int, t1, t2, 0, max_depth);
}

// ---------------------------------------------------------------------------
// Reader
// ---------------------------------------------------------------------------

/// Default maximum nesting depth for directory entries.
pub const DEFAULT_MAX_DEPTH: u16 = 256;

/// A whole archive on the wire: the magic string, then the root node.
pub open spec fn encode_archive(t: NarTree) -> Seq<u8> {
    tok("nix-archive-1"@) + encode_tree(t)
}

/// Reads a NAR archive from its bytes and computes its SHA-256 hash on the way.
pub struct NarReader {
    data: Vec<u8>,
    max_depth: u16,
    bytes_read: u64,
}

impl NarReader {
    /// The bytes the reader parses.
    pub closed spec fn input(self) -> Seq<u8> {
        self.data@
    }

    /// How many directories may nest.
    pub closed spec fn depth_limit(self) -> nat {
        self.max_depth as nat
    }

    /// How many bytes have been read so far.
    pub closed spec fn read_count(self) -> u64 {
        self.bytes_read
    }

    /// A reader over `data`, with the default depth limit.
    pub fn new(data: Vec<u8>) -> (r: Self)
        ensures
            r.input() == data@,
            r.depth_limit() == 256,
            r.read_count() == 0,
    {
        NarReader { data, max_depth: DEFAULT_MAX_DEPTH, bytes_read: 0 }
    }

    /// The same reader with at most `max_depth` nested directories.
    pub fn with_max_depth(self, max_depth: u16) -> (r: Self)
        ensures
            r.input() == self.input(),
            r.depth_limit() == max_depth,
            r.read_count() == self.read_count(),
    {
        NarReader { max_depth, ..self }
    }

    /// Parse the entire NAR archive. Returns the root node and the NAR hash, the
    /// SHA-256 of the bytes the archive spans.
    ///
    /// It succeeds exactly when the input starts with an archive the format allows.
    pub fn parse(self) -> (r: Result<(NarNode, NixHash), NiphasError>)
        ensures
            r matches Ok((n, h)) ==> {
                &&& valid_tree(n.tree(), 0, self.depth_limit())
                &&& has_at(self.input(), 0, encode_archive(n.tree()))
                &&& h.algo == HashAlgo::Sha256
                &&& h.digest@ == sha256_digest(encode_archive(n.tree()))
                &&& h.digest@.len() == 32
            },
            forall|t: NarTree|
                valid_tree(t, 0, self.depth_limit()) && #[trigger] has_at(
                    self.input(),
                    0,
                    encode_archive(t),
                ) ==> (r matches Ok((n, _)) && n.tree() == t),
            r matches Err(e) ==> e is NarParse,
            match archive_at(self.input(), self.depth_limit()) {
                Ok((t, _)) => r matches Ok((n, _)) && n.tree() == t,
                Err(f) => r matches Err(NiphasError::NarParse(m)) && failure_text(f, m@),
            },
    {
        let ghost hyp: Option<NarTree> = if exists|t: NarTree|
            valid_tree(t, 0, self.max_depth as nat) && #[trigger] has_at(
                self.data@,
                0,
                encode_archive(t),
            ) {
            Some(
                choose|t: NarTree|
                    valid_tree(t, 0, self.max_depth as nat) && #[trigger] has_at(
                        self.data@,
                        0,
                        encode_archive(t),
                    ),
            )
        } else {
            None
        };
        let data = self.data.as_slice();
        proof {
            lemma_token_texts();
            lemma_utf8_len("nix-archive-1"@);
            if let Some(t) = hyp {
                lemma_has_at_concat(data@, 0, tok("nix-archive-1"@), encode_tree(t));
            }
        }
        let p1 = match expect_str(data, 0, "nix-archive-1") {
            Ok(p) => p,
            Err(e) => return Err(e),
        };
        let (node, end) = match parse_node_at(data, p1, 0, self.max_depth, Ghost(hyp)) {
            Ok(x) => x,
            Err(e) => return Err(e),
        };
        proof {
            lemma_has_at_concat(data@, 0, tok("nix-archive-1"@), encode_tree(node.tree()));
            reveal(has_at);
        }
        proof {
            assert forall|t: NarTree|
                valid_tree(t, 0, self.max_depth as nat) && #[trigger] has_at(
                    data@,
                    0,
                    encode_archive(t),
                ) implies node.tree() == t by {
                lemma_archive_unique(data@, node.tree(), t, self.max_depth as nat);
            }
        }
        let digest = sha256_bytes(vstd::slice::slice_subrange(data, 0, end));
        Ok((node, NixHash { algo: HashAlgo::Sha256, digest }))
    }

    /// Get the total bytes read from the stream.
    pub fn bytes_read(&self) -> (r: u64)
        ensures
            r == self.read_count(),
    {
        self.bytes_read
    }
}

} // verus!
