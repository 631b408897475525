use vstd::prelude::*;
use vstd::string::StringSliceAdditionalSpecFns;
use vstd::utf8::{decode_utf8, encode_utf8, is_continuation_byte, valid_utf8};
use crate::error::NiphasError;
use crate::hash::{
    base32_error, from_nix_base32, lemma_nix_base32_string_bytes,
    lemma_nix_base32_string_roundtrip, nix_base32_decode, nix_base32_encode, nix_base32_string,
    to_nix_base32,
};
use crate::text::{chars_of, push_str, range_eq_str, string_of};

verus! {

/// Nix store path prefix.
pub const STORE_DIR: &'static str = "/nix/store";

/// Length of the hash part in a store path (Nix-base32 encoded).
pub const HASH_LEN: usize = 32;

/// `/nix/store/`, the prefix of every full store path.
pub open spec fn store_prefix() -> Seq<char> {
    seq!['/', 'n', 'i', 'x', '/', 's', 't', 'o', 'r', 'e', '/']
}

/// The inputs on which slicing off the hash would cut a character in two.
pub open spec fn basename_cuts_char(b: Seq<char>) -> bool {
    encode_utf8(b).len() >= 34 && is_continuation_byte(encode_utf8(b)[32])
}

/// The inputs on which `StorePath::parse` would cut a character in two.
pub open spec fn store_path_parse_panics(s: Seq<char>) -> bool {
    s.len() >= 11 && s.take(11) == store_prefix() && basename_cuts_char(s.skip(11))
}

/// A basename is accepted when its UTF-8 form has at least 34 bytes, a `-` after the
/// 32 hash digits, and digits that decode; the hash is their decoding and the name is
/// what follows the `-`.
#[verifier::opaque]
pub open spec fn basename_parts(b: Seq<char>) -> Option<(Seq<u8>, Seq<char>)> {
    let bs = encode_utf8(b);
    if bs.len() >= 34 && bs[32] == 45 {
        match nix_base32_decode(bs.take(32)) {
            Some(h) => Some((h, decode_utf8(bs.skip(33)))),
            None => None,
        }
    } else {
        None
    }
}

/// `<hash>-<name>`, the basename of a store path.
pub open spec fn basename_text(hash: Seq<u8>, name: Seq<char>) -> Seq<char> {
    nix_base32_string(hash) + seq!['-'] + name
}

/// `/nix/store/<hash>-<name>`, as `Display` writes a store path.
pub open spec fn store_path_text(hash: Seq<u8>, name: Seq<char>) -> Seq<char> {
    store_prefix() + basename_text(hash, name)
}

/// The UTF-8 form of a concatenation is the concatenation of the UTF-8 forms.
pub proof fn lemma_encode_utf8_concat(a: Seq<char>, b: Seq<char>)
    ensures
        encode_utf8(a + b) == encode_utf8(a) + encode_utf8(b),
    decreases a.len(),
{
    if a.len() == 0 {
        assert(a + b =~= b);
        assert(encode_utf8(a) + encode_utf8(b) =~= encode_utf8(b));
    } else {
        assert((a + b).drop_first() =~= a.drop_first() + b);
        lemma_encode_utf8_concat(a.drop_first(), b);
        assert(encode_utf8(a + b) =~= encode_utf8(a) + encode_utf8(b));
    }
}

/// Parsing what `to_string` writes gives the store path back: the text starts with
/// `/nix/store/`, and its basename splits into the same hash and name.
pub proof fn lemma_store_path_roundtrip(hash: Seq<u8>, name: Seq<char>)
    requires
        hash.len() == 20,
        name.len() > 0,
    ensures
        store_path_text(hash, name).len() >= 11,
        store_path_text(hash, name).take(11) == store_prefix(),
        store_path_text(hash, name).skip(11) == basename_text(hash, name),
        !basename_cuts_char(basename_text(hash, name)),
        basename_parts(basename_text(hash, name)) == Some((hash, name)),
{
    let n32 = nix_base32_string(hash);
    let b = basename_text(hash, name);
    let t = store_path_text(hash, name);
    assert(t.take(11) =~= store_prefix());
    assert(t.skip(11) =~= b);
    let bs = encode_utf8(b);
    let en = encode_utf8(name);
    let e32 = nix_base32_encode(hash);
    assert(bs == e32 + seq![45u8] + en && e32.len() == 32 && en.len() > 0) by {
        lemma_encode_utf8_concat(n32 + seq!['-'], name);
        lemma_encode_utf8_concat(n32, seq!['-']);
        lemma_nix_base32_string_bytes(hash);
        assert(vstd::utf8::is_ascii_chars(seq!['-']));
        vstd::utf8::is_ascii_chars_encode_utf8(seq!['-']);
        assert(encode_utf8(seq!['-']) =~= seq![45u8]);
        assert(en == vstd::utf8::encode_scalar(name[0] as u32) + encode_utf8(name.drop_first()));
    }
    assert(bs[32] == 45);
    assert(bs.take(32) =~= e32);
    assert(bs.skip(33) =~= en);
    assert(nix_base32_decode(e32) == Some(hash)) by {
        lemma_nix_base32_string_bytes(hash);
        lemma_nix_base32_string_roundtrip(hash);
    }
    vstd::utf8::encode_utf8_decode_utf8(name);
    reveal(basename_parts);
}

proof fn lemma_basename_parts_of(b: Seq<char>)
    ensures
        basename_parts(b) == {
            let bs = encode_utf8(b);
            if bs.len() >= 34 && bs[32] == 45 {
                match nix_base32_decode(bs.take(32)) {
                    Some(h) => Some((h, decode_utf8(bs.skip(33)))),
                    None => None,
                }
            } else {
                None
            }
        },
{
    reveal(basename_parts);
}

/// A basename is accepted exactly when its UTF-8 form has at least 34 bytes, the byte
/// after the first 32 is `-`, and those 32 are Nix-base32 digits; then the hash is 20
/// bytes, and writing the hash and the name back gives the basename itself (the 32 digits,
/// the `-`, and the rest as the name).
#[verifier::spinoff_prover]
pub proof fn lemma_basename_parts_characterised(b: Seq<char>)
    ensures
        basename_parts(b) is Some <==> ({
            let bs = encode_utf8(b);
            bs.len() >= 34 && bs[32] == 45 && crate::hash::all_base32(bs.take(32))
        }),
        basename_parts(b) matches Some((h, n)) ==> h.len() == 20 && basename_text(h, n) == b,
{
    lemma_basename_parts_of(b);
    let bs = encode_utf8(b);
    if bs.len() >= 34 && bs[32] == 45 && crate::hash::all_base32(bs.take(32)) {
        let d = bs.take(32);
        crate::hash::lemma_nix_base32_roundtrip_text(d);
        let h = nix_base32_decode(d).unwrap();
        let n = decode_utf8(bs.skip(33));
        lemma_basename_writes_back(b, h, n);
    }
}

proof fn lemma_basename_writes_back(b: Seq<char>, h: Seq<u8>, n: Seq<char>)
    requires
        encode_utf8(b).len() >= 34,
        encode_utf8(b)[32] == 45,
        nix_base32_encode(h) == encode_utf8(b).take(32),
        n == decode_utf8(encode_utf8(b).skip(33)),
    ensures
        basename_text(h, n) == b,
{
    let bs = encode_utf8(b);
    assert(encode_utf8(n) == bs.skip(33)) by {
        vstd::utf8::encode_utf8_valid_utf8(b);
        lemma_suffix_valid(bs);
        vstd::utf8::decode_utf8_encode_utf8(bs.skip(33));
    }
    lemma_basename_text_bytes(h, n);
    assert(encode_utf8(basename_text(h, n)) =~= bs);
    vstd::utf8::encode_utf8_decode_utf8(basename_text(h, n));
    vstd::utf8::encode_utf8_decode_utf8(b);
}

proof fn lemma_basename_text_bytes(h: Seq<u8>, n: Seq<char>)
    ensures
        encode_utf8(basename_text(h, n)) == nix_base32_encode(h) + seq![45u8] + encode_utf8(n),
{
    lemma_encode_utf8_concat(nix_base32_string(h) + seq!['-'], n);
    lemma_encode_utf8_concat(nix_base32_string(h), seq!['-']);
    lemma_nix_base32_string_bytes(h);
    assert(vstd::utf8::is_ascii_chars(seq!['-']));
    vstd::utf8::is_ascii_chars_encode_utf8(seq!['-']);
    assert(encode_utf8(seq!['-']) =~= seq![45u8]);
}

/// A parsed Nix store path: `/nix/store/<hash>-<name>`.
///
/// The hash is 20 bytes (truncated SHA-256), encoded as 32 Nix-base32 chars.
#[derive(Debug, PartialEq, Eq, Hash)]
pub struct StorePath {
    /// 20-byte hash (decoded from the 32-char Nix-base32 prefix).
    pub hash: [u8; 20],
    /// Package name with version, e.g. `hello-2.12.1`.
    pub name: String,
}

proof fn lemma_suffix_valid(bs: Seq<u8>)
    requires
        valid_utf8(bs),
        bs.len() >= 34,
        bs[32] == 45,
    ensures
        valid_utf8(bs.skip(33)),
{
    vstd::utf8::is_char_boundary_iff_not_is_continuation_byte(bs, 32);
    vstd::utf8::valid_utf8_split(bs, 32);
    let tail = bs.subrange(32, bs.len() as int);
    assert(tail[0] == 45);
    assert(vstd::utf8::pop_first_scalar(tail) =~= bs.skip(33));
}

proof fn lemma_prefix_valid(bs: Seq<u8>)
    requires
        valid_utf8(bs),
        bs.len() >= 34,
        bs[32] == 45,
    ensures
        valid_utf8(bs.take(32)),
{
    vstd::utf8::is_char_boundary_iff_not_is_continuation_byte(bs, 32);
    vstd::utf8::valid_utf8_split(bs, 32);
    assert(bs.subrange(0, 32) =~= bs.take(32));
}

/// The first `n` bytes of `data`.
fn copy_prefix(data: &[u8], n: usize) -> (r: Vec<u8>)
    requires
        n <= data@.len(),
    ensures
        r@ == data@.take(n as int),
{
    let mut out: Vec<u8> = Vec::new();
    let mut i: usize = 0;
    while i < n
        invariant
            i <= n <= data@.len(),
            out@ == data@.take(i as int),
        decreases n - i,
    {
        out.push(data[i]);
        proof {
            assert(data@.take(i + 1) =~= data@.take(i as int).push(data@[i as int]));
        }
        i += 1;
    }
    out
}

/// Whether `StorePath::parse_basename` would slice `b` inside a character (its
/// precondition fails).
pub fn basename_would_panic(b: &str) -> (r: bool)
    ensures
        r == basename_cuts_char(b@),
{
    let bs = b.as_bytes();
    bs.len() >= 34 && 128u8 <= bs[32] && bs[32] <= 191u8
}

/// Whether `StorePath::parse` would slice `s` inside a character (its precondition
/// fails).
pub fn parse_would_panic(s: &str) -> (r: bool)
    ensures
        r == store_path_parse_panics(s@),
{
    let v = chars_of(s);
    if v.len() >= 11 && range_eq_str(&v, 0, 11, "/nix/store/") {
        proof {
            reveal_strlit("/nix/store/");
            assert("/nix/store/"@ =~= store_prefix());
            assert(v@.subrange(0, 11) =~= s@.take(11));
        }
        let rest = string_of(&v, 11, v.len());
        proof {
            assert(rest@ =~= s@.skip(11));
        }
        basename_would_panic(rest.as_str())
    } else {
        proof {
            reveal_strlit("/nix/store/");
            assert("/nix/store/"@ =~= store_prefix());
            if v@.len() >= 11 {
                assert(v@.subrange(0, 11) =~= s@.take(11));
            }
        }
        false
    }
}

/// The bytes of `data` from `start` on.
fn copy_from(data: &[u8], start: usize) -> (r: Vec<u8>)
    requires
        start <= data@.len(),
    ensures
        r@ == data@.skip(start as int),
{
    let mut out: Vec<u8> = Vec::new();
    let mut i: usize = start;
    while i < data.len()
        invariant
            start <= i <= data@.len(),
            out@ == data@.subrange(start as int, i as int),
        decreases data@.len() - i,
    {
        out.push(data[i]);
        proof {
            assert(data@.subrange(start as int, i + 1) =~= data@.subrange(start as int, i as int).push(
                data@[i as int],
            ));
        }
        i += 1;
    }
    proof {
        assert(out@ =~= data@.skip(start as int));
    }
    out
}

fn hash_array(d: &Vec<u8>) -> (r: [u8; 20])
    requires
        d@.len() == 20,
    ensures
        r@ == d@,
{
    let r: [u8; 20] = [
        d[0], d[1], d[2], d[3], d[4], d[5], d[6], d[7], d[8], d[9], d[10], d[11], d[12], d[13],
        d[14], d[15], d[16], d[17], d[18], d[19],
    ];
    proof {
        assert(r@ =~= d@);
    }
    r
}

impl Clone for StorePath {
    fn clone(&self) -> (r: Self)
        ensures
            r.hash@ == self.hash@,
            r.name@ == self.name@,
    {
        StorePath { hash: self.hash, name: copy_string(&self.name) }
    }
}

impl StorePath {
    /// Parse a full store path like `/nix/store/abc123...-hello-2.12.1`.
    pub fn parse(s: &str) -> (r: Result<StorePath, NiphasError>)
        requires
            s@.len() >= 11 && s@.take(11) == store_prefix() ==> !basename_cuts_char(s@.skip(11)),
        ensures
            s@.len() >= 11 && s@.take(11) == store_prefix() ==> StorePath::parse_basename_result(
                s@.skip(11),
                r,
            ),
            !(s@.len() >= 11 && s@.take(11) == store_prefix()) ==> (r matches Err(
                NiphasError::InvalidStorePath(m),
            ) && m@ == "missing /nix/store/ prefix: '"@ + s@ + "'"@),
    {
        let v = chars_of(s);
        if v.len() >= 11 && range_eq_str(&v, 0, 11, "/nix/store/") {
            proof {
                reveal_strlit("/nix/store/");
                assert("/nix/store/"@ =~= store_prefix());
                assert(v@.subrange(0, 11) =~= s@.take(11));
            }
            let rest = string_of(&v, 11, v.len());
            proof {
                assert(rest@ =~= s@.skip(11));
            }
            StorePath::parse_basename(rest.as_str())
        } else {
            proof {
                reveal_strlit("/nix/store/");
                assert("/nix/store/"@ =~= store_prefix());
                if v@.len() >= 11 {
                    assert(v@.subrange(0, 11) =~= s@.take(11));
                }
            }
            let mut msg = String::new();
            push_str(&mut msg, "missing /nix/store/ prefix: '");
            push_str(&mut msg, s);
            push_str(&mut msg, "'");
            Err(NiphasError::InvalidStorePath(msg))
        }
    }

    /// Whether `r` is what `parse` gives for `s`.
    pub open spec fn parse_result(s: Seq<char>, r: Result<StorePath, NiphasError>) -> bool {
        if s.len() >= 11 && s.take(11) == store_prefix() {
            StorePath::parse_basename_result(s.skip(11), r)
        } else {
            r matches Err(NiphasError::InvalidStorePath(m)) && m@ == "missing /nix/store/ prefix: '"@
                + s + "'"@
        }
    }

    /// Whether `r` is what `parse_basename` gives for `b`.
    pub open spec fn parse_basename_result(b: Seq<char>, r: Result<StorePath, NiphasError>) -> bool {
        let bs = encode_utf8(b);
        match r {
            Ok(sp) => basename_parts(b) == Some((sp.hash@, sp.name@)),
            Err(e) => basename_parts(b) is None && if bs.len() < 34 {
                e matches NiphasError::InvalidStorePath(m) && m@ == "store path basename too short: '"@
                    + b + "'"@
            } else if bs[32] != 45 {
                e matches NiphasError::InvalidStorePath(m) && m@
                    == "expected '-' after hash in store path: '"@ + b + "'"@
            } else {
                e matches NiphasError::NarInfoParse(m) && m@ == base32_error(decode_utf8(bs.take(32)))
            },
        }
    }

    /// Parse a store path basename like `abc123...-hello-2.12.1` (no `/nix/store/` prefix).
    pub fn parse_basename(basename: &str) -> (r: Result<StorePath, NiphasError>)
        requires
            !basename_cuts_char(basename@),
        ensures
            StorePath::parse_basename_result(basename@, r),
    {
        let bytes = basename.as_bytes();
        let ghost bs = bytes@;
        proof {
            lemma_basename_parts_of(basename@);
        }
        if bytes.len() < HASH_LEN + 2 {
            let mut msg = String::new();
            push_str(&mut msg, "store path basename too short: '");
            push_str(&mut msg, basename);
            push_str(&mut msg, "'");
            return Err(NiphasError::InvalidStorePath(msg));
        }
        if bytes[HASH_LEN] != 45u8 {
            let mut msg = String::new();
            push_str(&mut msg, "expected '-' after hash in store path: '");
            push_str(&mut msg, basename);
            push_str(&mut msg, "'");
            return Err(NiphasError::InvalidStorePath(msg));
        }
        proof {
            vstd::utf8::encode_utf8_valid_utf8(basename@);
            lemma_suffix_valid(bs);
            lemma_prefix_valid(bs);
        }
        let hash_text = match crate::nar::utf8_text(copy_prefix(bytes, HASH_LEN)) {
            Ok(t) => t,
            Err(_) => {
                proof {
                    assert(false);
                }
                return Err(NiphasError::InvalidStorePath("invalid UTF-8 in hash".to_string()));
            },
        };
        proof {
            vstd::utf8::decode_utf8_encode_utf8(bs.take(32));
            assert(encode_utf8(hash_text@) == bs.take(32));
        }
        let digest = match from_nix_base32(hash_text.as_str()) {
            Ok(d) => d,
            Err(e) => return Err(e),
        };
        let name = match crate::nar::utf8_text(copy_from(bytes, HASH_LEN + 1)) {
            Ok(n) => n,
            Err(_) => {
                return Err(NiphasError::InvalidStorePath("invalid UTF-8 in name".to_string()));
            },
        };
        let hash = hash_array(&digest);
        Ok(StorePath { hash, name })
    }

    /// The 32-char Nix-base32 hash string, used for `.narinfo` lookup.
    pub fn hash_str(&self) -> (r: String)
        ensures
            r@ == nix_base32_string(self.hash@),
    {
        to_nix_base32(self.hash.as_slice())
    }

    /// The basename: `<hash>-<name>`.
    pub fn basename(&self) -> (r: String)
        ensures
            r@ == basename_text(self.hash@, self.name@),
    {
        let mut r = self.hash_str();
        r.push('-');
        push_str(&mut r, self.name.as_str());
        r
    }

    /// `/nix/store/<hash>-<name>`.
    pub fn to_string(&self) -> (r: String)
        ensures
            r@ == store_path_text(self.hash@, self.name@),
    {
        let mut r = String::new();
        push_str(&mut r, STORE_DIR);
        r.push('/');
        let b = self.basename();
        push_str(&mut r, b.as_str());
        proof {
            reveal_strlit("/nix/store");
            assert(r@ =~= store_path_text(self.hash@, self.name@));
        }
        r
    }
}

/// A store path reference -- just the basename (e.g. `abc123-hello-2.12.1`).
/// Used in `.narinfo` References field where paths don't have the `/nix/store/` prefix.
#[derive(Debug, PartialEq, Eq, Hash)]
pub struct StorePathRef(String);

impl Clone for StorePathRef {
    fn clone(&self) -> (r: Self)
        ensures
            r@ == self@,
    {
        proof {
            use_type_invariant(self);
        }
        StorePathRef(copy_string(&self.0))
    }
}

impl View for StorePathRef {
    type V = Seq<char>;

    closed spec fn view(&self) -> Seq<char> {
        self.0@
    }
}

impl StorePathRef {
    /// Every reference holds a basename that parses.
    #[verifier::type_invariant]
    closed spec fn valid(self) -> bool {
        basename_parts(self.0@) is Some && !basename_cuts_char(self.0@)
    }

    /// Parse a basename like `abc123-hello-2.12.1`.
    pub fn parse(s: &str) -> (r: Result<StorePathRef, NiphasError>)
        requires
            !basename_cuts_char(s@),
        ensures
            match r {
                Ok(p) => basename_parts(s@) is Some && p@ == s@,
                Err(e) => StorePath::parse_basename_result(s@, Err(e)),
            },
    {
        match StorePath::parse_basename(s) {
            Ok(_) => {
                let mut t = String::new();
                push_str(&mut t, s);
                assert(t@ =~= s@);
                Ok(StorePathRef(t))
            },
            Err(e) => Err(e),
        }
    }

    /// Convert to a full store path string.
    pub fn to_store_path_string(&self) -> (r: String)
        ensures
            r@ == store_prefix() + self@,
    {
        let mut r = String::new();
        push_str(&mut r, STORE_DIR);
        r.push('/');
        push_str(&mut r, self.0.as_str());
        proof {
            reveal_strlit("/nix/store");
            assert(r@ =~= store_prefix() + self@);
        }
        r
    }

    /// The basename; it always parses.
    pub fn as_str(&self) -> (r: &str)
        ensures
            r@ == self@,
            basename_parts(self@) is Some,
            !basename_cuts_char(self@),
    {
        proof {
            use_type_invariant(self);
        }
        self.0.as_str()
    }

    /// The basename, as `Display` writes it.
    pub fn to_string(&self) -> (r: String)
        ensures
            r@ == self@,
    {
        copy_string(&self.0)
    }
}

fn copy_string(s: &String) -> (r: String)
    ensures
        r@ == s@,
{
    let mut r = String::new();
    push_str(&mut r, s.as_str());
    r
}

/// A basename that parses is written back the same way: it is the text of its hash and
/// name.
#[verifier::spinoff_prover]
#[verifier::rlimit(40)]
pub proof fn lemma_basename_parts_text(b: Seq<char>)
    requires
        basename_parts(b) is Some,
    ensures
        basename_text(basename_parts(b).unwrap().0, basename_parts(b).unwrap().1) == b,
{
    lemma_basename_parts_of(b);
    let bs = encode_utf8(b);
    let digits = bs.take(32);
    let h = nix_base32_decode(digits).unwrap();
    let n = decode_utf8(bs.skip(33));
    assert(nix_base32_encode(h) == digits) by {
        assert(crate::hash::all_base32(digits));
        crate::hash::lemma_nix_base32_roundtrip_text(digits);
    }
    assert(encode_utf8(n) == bs.skip(33)) by {
        vstd::utf8::encode_utf8_valid_utf8(b);
        lemma_suffix_valid(bs);
        vstd::utf8::decode_utf8_encode_utf8(bs.skip(33));
    }
    let t = basename_text(h, n);
    assert(encode_utf8(t) == nix_base32_encode(h) + seq![45u8] + encode_utf8(n)) by {
        lemma_nix_base32_string_bytes(h);
        lemma_encode_utf8_concat(nix_base32_string(h) + seq!['-'], n);
        lemma_encode_utf8_concat(nix_base32_string(h), seq!['-']);
        assert(vstd::utf8::is_ascii_chars(seq!['-']));
        vstd::utf8::is_ascii_chars_encode_utf8(seq!['-']);
        assert(encode_utf8(seq!['-']) =~= seq![45u8]);
    }
    assert(encode_utf8(t) =~= bs);
    assert(t == b) by {
        vstd::utf8::encode_utf8_decode_utf8(t);
        vstd::utf8::encode_utf8_decode_utf8(b);
    }
}

/// What `parse_basename` gives for `b`: `Ok` exactly when the UTF-8 form has at least 34
/// bytes, a `-` after the first 32, and Nix-base32 digits before it; the store path it
/// gives writes back as `b` (`basename()` returns `b`).
pub proof fn lemma_parse_basename_accepts(b: Seq<char>, r: Result<StorePath, NiphasError>)
    requires
        StorePath::parse_basename_result(b, r),
    ensures
        r is Ok <==> ({
            let bs = encode_utf8(b);
            bs.len() >= 34 && bs[32] == 45 && crate::hash::all_base32(bs.take(32))
        }),
        r matches Ok(sp) ==> basename_text(sp.hash@, sp.name@) == b,
{
    lemma_basename_parts_characterised(b);
}

} // verus!
