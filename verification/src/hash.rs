use vstd::prelude::*;
use vstd::string::StringSliceAdditionalSpecFns;
use crate::error::NiphasError;
use crate::text::{
    chars_of, find_char, first_index, last_failing, lemma_first_index, lemma_first_index_none,
    lemma_last_failing, push_str, range_eq_str, string_of,
};
use sha2::Digest;
use vstd::utf8::*;

verus! {

// ---------------------------------------------------------------------------
// Nix-base32
// ---------------------------------------------------------------------------

/// The value of a byte of the Nix-base32 alphabet
/// `0123456789abcdfghijklmnpqrsvwxyz` (it omits `e`, `o`, `t` and `u`).
pub open spec fn base32_value(b: u8) -> Option<u32> {
    if 48 <= b <= 57 {
        Some((b - 48) as u32)
    } else if 97 <= b <= 100 {
        Some((b - 87) as u32)
    } else if 102 <= b <= 110 {
        Some((b - 88) as u32)
    } else if 112 <= b <= 115 {
        Some((b - 89) as u32)
    } else if 118 <= b <= 122 {
        Some((b - 91) as u32)
    } else {
        None
    }
}

/// The alphabet byte that stands for the digit `d` (`d < 32`).
pub open spec fn base32_char(d: u32) -> u8 {
    if d < 10 {
        (d + 48) as u8
    } else if d < 14 {
        (d + 87) as u8
    } else if d < 23 {
        (d + 88) as u8
    } else if d < 27 {
        (d + 89) as u8
    } else {
        (d + 91) as u8
    }
}

/// Byte `i` of `s`, or 0 outside of `s`.
pub open spec fn byte_at(s: Seq<u8>, i: int) -> u32 {
    if 0 <= i < s.len() {
        s[i] as u32
    } else {
        0
    }
}

/// Bits `5k .. 5k+5` of `s` read as a little-endian bit string
/// (bit `b` is bit `b % 8` of byte `b / 8`; bits past the end are 0).
pub open spec fn digit_at(s: Seq<u8>, k: int) -> u32 {
    let b = 5 * k;
    (((byte_at(s, b / 8 + 1) << 8u32) | byte_at(s, b / 8)) >> ((b % 8) as u32)) & 31u32
}

/// Number of digits that encode `n` bytes: `ceil(8n / 5)`.
pub open spec fn encoded_len(n: int) -> int {
    (n * 8 + 4) / 5
}

/// The Nix-base32 encoding of `s`, as bytes: the most significant digit comes first,
/// so character `j` is the digit `encoded_len - 1 - j`.
pub open spec fn nix_base32_encode(s: Seq<u8>) -> Seq<u8> {
    Seq::new(
        encoded_len(s.len() as int) as nat,
        |j: int| base32_char(digit_at(s, encoded_len(s.len() as int) - 1 - j)),
    )
}

/// Whether every byte of `s` belongs to the alphabet.
pub open spec fn all_base32(s: Seq<u8>) -> bool {
    forall|i: int| 0 <= i < s.len() ==> (#[trigger] base32_value(s[i])) is Some
}

/// Digit `i` of an encoded string, counted from its end (0 past either end).
pub open spec fn rev_digit(s: Seq<u8>, i: int) -> u32 {
    if 0 <= i < s.len() {
        base32_value(s[s.len() - 1 - i]).unwrap()
    } else {
        0
    }
}

/// Byte `j` of the decoding: bits `8j .. 8j+8` of the bit string whose 5-bit groups
/// are the digits read from the end of `s`.
pub open spec fn decoded_byte(s: Seq<u8>, j: int) -> u8 {
    let b = 8 * j;
    let i0 = b / 5;
    (((rev_digit(s, i0) | (rev_digit(s, i0 + 1) << 5u32) | (rev_digit(s, i0 + 2) << 10u32))
        >> ((b % 5) as u32)) & 255u32) as u8
}

/// The Nix-base32 decoding of `s`: `None` when a byte is outside the alphabet,
/// otherwise `floor(5 * len / 8)` bytes (bits past them are dropped).
pub open spec fn nix_base32_decode(s: Seq<u8>) -> Option<Seq<u8>> {
    if all_base32(s) {
        Some(Seq::new((s.len() * 5 / 8) as nat, |j: int| decoded_byte(s, j)))
    } else {
        None
    }
}

/// The inputs on which the decoder indexes past its output buffer: a valid string whose
/// first character starts a byte that the output does not have.
pub open spec fn nix_base32_decode_panics(s: Seq<u8>) -> bool {
    s.len() > 0 && all_base32(s) && (5 * s.len() - 5) / 8 == (5 * s.len()) / 8
}

fn base32_char_exec(d: u32) -> (c: char)
    requires
        d < 32,
    ensures
        c as u32 == base32_char(d) as u32,
        c as u8 == base32_char(d),
{
    let b: u8 = if d < 10 {
        (d + 48) as u8
    } else if d < 14 {
        (d + 87) as u8
    } else if d < 23 {
        (d + 88) as u8
    } else if d < 27 {
        (d + 89) as u8
    } else {
        (d + 91) as u8
    };
    b as char
}

fn base32_value_exec(b: u8) -> (r: Option<u32>)
    ensures
        r == base32_value(b),
{
    if 48 <= b && b <= 57 {
        Some((b - 48) as u32)
    } else if 97 <= b && b <= 100 {
        Some((b - 87) as u32)
    } else if 102 <= b && b <= 110 {
        Some((b - 88) as u32)
    } else if 112 <= b && b <= 115 {
        Some((b - 89) as u32)
    } else if 118 <= b && b <= 122 {
        Some((b - 91) as u32)
    } else {
        None
    }
}


/// Encode bytes to a Nix-base32 string.
///
/// Nix-base32 takes the bits least significant first and writes the digits in reverse,
/// so the most significant digit appears first.
pub fn to_nix_base32(input: &[u8]) -> (out: String)
    requires
        input@.len() * 8 + 4 <= usize::MAX,
    ensures
        out@ == nix_base32_encode(input@).map_values(|b: u8| b as char),
{
    let len = input.len();
    let out_len = (len * 8 + 4) / 5;
    let ghost enc = nix_base32_encode(input@).map_values(|b: u8| b as char);
    let mut out = String::new();
    let mut j: usize = 0;
    while j < out_len
        invariant
            len == input@.len(),
            out_len == encoded_len(len as int),
            enc.len() == out_len,
            enc == nix_base32_encode(input@).map_values(|b: u8| b as char),
            j <= out_len,
            out@ == enc.take(j as int),
        decreases out_len - j,
    {
        let n = out_len - 1 - j;
        let b = n as u128 * 5;
        let byte_idx = (b / 8) as usize;
        let bit_idx = (b % 8) as usize;
        assert(byte_idx < len) by (nonlinear_arith)
            requires
                n < out_len,
                out_len == (len * 8 + 4) / 5,
                b == n * 5,
                byte_idx == b / 8,
        ;
        let lo = input[byte_idx] as u32;
        let hi: u32 = if byte_idx + 1 < len {
            input[byte_idx + 1] as u32
        } else {
            0
        };
        let c = (((hi << 8u32) | lo) >> (bit_idx as u32)) & 31u32;
        assert(c < 32) by (bit_vector)
            requires
                c == (((hi << 8u32) | lo) >> (bit_idx as u32)) & 31u32,
        ;
        assert(c == digit_at(input@, n as int));
        let ch = base32_char_exec(c);
        out.push(ch);
        proof {
            assert(enc[j as int] == ch);
            assert(out@ =~= enc.take(j + 1));
        }
        j += 1;
    }
    proof {
        assert(enc.take(out_len as int) =~= enc);
    }
    out
}

/// Decodes the bytes of a Nix-base32 string.
pub(crate) fn decode_base32_bytes(input: &[u8]) -> (r: Option<Vec<u8>>)
    requires
        !nix_base32_decode_panics(input@),
    ensures
        match r {
            Some(v) => nix_base32_decode(input@) == Some(v@),
            None => nix_base32_decode(input@) is None,
        },
{
    let len = input.len();
    // Digits in reverse order: digits[i] is the value of input[len - 1 - i].
    let mut digits: Vec<u32> = Vec::new();
    let mut i: usize = 0;
    while i < len
        invariant
            len == input@.len(),
            i <= len,
            digits@.len() == i,
            forall|k: int| 0 <= k < i ==> (#[trigger] base32_value(input@[len - 1 - k])) is Some,
            forall|k: int| 0 <= k < i ==> #[trigger] digits@[k] == rev_digit(input@, k),
        decreases len - i,
    {
        match base32_value_exec(input[len - 1 - i]) {
            Some(d) => {
                digits.push(d);
            },
            None => {
                proof {
                    let k = len - 1 - i;
                    assert(base32_value(input@[k]) is None);
                }
                return None;
            },
        }
        i += 1;
    }
    proof {
        assert forall|k: int| 0 <= k < len implies (#[trigger] base32_value(input@[k])) is Some by {
            let t = len - 1 - k;
            assert(base32_value(input@[len - 1 - t]) is Some);
        }
    }
    let out_len = (len as u128 * 5 / 8) as usize;
    let mut out: Vec<u8> = Vec::new();
    let mut j: usize = 0;
    while j < out_len
        invariant
            len == input@.len(),
            all_base32(input@),
            digits@.len() == len,
            forall|k: int| 0 <= k < len ==> #[trigger] digits@[k] == rev_digit(input@, k),
            out_len == len * 5 / 8,
            j <= out_len,
            out@.len() == j,
            forall|k: int| 0 <= k < j ==> #[trigger] out@[k] == decoded_byte(input@, k),
        decreases out_len - j,
    {
        let b = 8 * (j as u128);
        let i0w = b / 5;
        let d0: u32 = if i0w < len as u128 { digits[i0w as usize] } else { 0 };
        let d1: u32 = if i0w + 1 < len as u128 { digits[(i0w + 1) as usize] } else { 0 };
        let d2: u32 = if i0w + 2 < len as u128 { digits[(i0w + 2) as usize] } else { 0 };
        let w = d0 | (d1 << 5u32) | (d2 << 10u32);
        let byte = ((w >> ((b % 5) as u32)) & 255u32) as u8;
        assert(byte == decoded_byte(input@, j as int));
        out.push(byte);
        j += 1;
    }
    proof {
        assert(out@ =~= Seq::new((len * 5 / 8) as nat, |j: int| decoded_byte(input@, j)));
    }
    Some(out)
}

/// Whether a character is a Nix-base32 digit.
pub open spec fn base32_char_ok(c: char) -> bool {
    (c as u32) < 128 && base32_value((c as u32) as u8) is Some
}

/// `base32_char_ok` as a function value.
pub open spec fn base32_char_fn() -> spec_fn(char) -> bool {
    |c: char| base32_char_ok(c)
}

/// The message for a string that is not Nix-base32: it names the last character that is
/// not a digit (the decoder reads from the end).
#[verifier::opaque]
pub open spec fn base32_error(s: Seq<char>) -> Seq<char> {
    match last_failing(s, base32_char_fn()) {
        Some(i) => "invalid nix-base32 character: '"@ + seq![s[i]] + "'"@,
        None => "invalid nix-base32 character"@,
    }
}

/// Decode a Nix-base32 string back to bytes.
pub fn from_nix_base32(input: &str) -> (r: Result<Vec<u8>, NiphasError>)
    requires
        !nix_base32_decode_panics(input.spec_bytes()),
    ensures
        match r {
            Ok(v) => nix_base32_decode(input.spec_bytes()) == Some(v@),
            Err(e) => nix_base32_decode(input.spec_bytes()) is None && (e matches NiphasError::NarInfoParse(
                m,
            ) && m@ == base32_error(input@)),
        },
{
    match decode_base32_bytes(input.as_bytes()) {
        Some(v) => Ok(v),
        None => {
            let v = chars_of(input);
            let mut i: usize = v.len();
            while i > 0
                invariant
                    i <= v@.len(),
                    v@ == input@,
                    nix_base32_decode(input.spec_bytes()) is None,
                    forall|j: int| i <= j < v@.len() ==> #[trigger] base32_char_ok(v@[j]),
                decreases i,
            {
                let c = v[i - 1];
                let ok = (c as u32) < 128 && base32_value_exec((c as u32) as u8).is_some();
                if !ok {
                    proof {
                        assert forall|j: int| i - 1 < j < v@.len() implies base32_char_fn()(v@[j]) by {
                            assert(base32_char_ok(v@[j]));
                        }
                        lemma_last_failing(v@, base32_char_fn(), i - 1);
                    }
                    let mut m = String::new();
                    push_str(&mut m, "invalid nix-base32 character: '");
                    m.push(c);
                    push_str(&mut m, "'");
                    proof {
                        reveal_strlit("invalid nix-base32 character: '");
                        reveal_strlit("'");
                        reveal(base32_error);
                        assert(m@ =~= base32_error(input@));
                    }
                    return Err(NiphasError::NarInfoParse(m));
                }
                i -= 1;
            }
            proof {
                assert(!(exists|j: int| 0 <= j < v@.len() && !base32_char_fn()(v@[j])));
                reveal(base32_error);
            }
            let mut m = String::new();
            push_str(&mut m, "invalid nix-base32 character");
            Err(NiphasError::NarInfoParse(m))
        },
    }
}

// ---------------------------------------------------------------------------
// Roundtrip proofs
// ---------------------------------------------------------------------------

proof fn lemma_bits_low(a: u32, b: u32, c: u32, r: u32)
    requires
        a < 256,
        b < 256,
        c < 256,
        r < 8,
    ensures
        (((b << 8u32) | a) >> r) & 31u32 == ((a | (b << 8u32) | (c << 16u32)) >> r) & 31u32,
{
    assert((((b << 8u32) | a) >> r) & 31u32 == ((a | (b << 8u32) | (c << 16u32)) >> r) & 31u32)
        by (bit_vector)
        requires
            a < 256,
            b < 256,
            c < 256,
            r < 8,
    ;
}

proof fn lemma_bits_mid(a: u32, b: u32, c: u32, r: u32)
    requires
        a < 256,
        b < 256,
        c < 256,
        r < 8,
    ensures
        (((c << 8u32) | b) >> r) & 31u32 == ((a | (b << 8u32) | (c << 16u32)) >> (r + 8)) & 31u32,
{
    assert((((c << 8u32) | b) >> r) & 31u32 == ((a | (b << 8u32) | (c << 16u32)) >> (r + 8))
        & 31u32) by (bit_vector)
        requires
            a < 256,
            b < 256,
            c < 256,
            r < 8,
    ;
}

proof fn lemma_bits_high(a: u32, b: u32, c: u32, e: u32, r: u32)
    requires
        a < 256,
        b < 256,
        c < 256,
        e < 256,
        r <= 2,
    ensures
        (((e << 8u32) | c) >> r) & 31u32 == ((a | (b << 8u32) | (c << 16u32)) >> (r + 16)) & 31u32,
{
    assert((((e << 8u32) | c) >> r) & 31u32 == ((a | (b << 8u32) | (c << 16u32)) >> (r + 16))
        & 31u32) by (bit_vector)
        requires
            a < 256,
            b < 256,
            c < 256,
            e < 256,
            r <= 2,
    ;
}

proof fn lemma_bits_window(a: u32, b: u32, c: u32, s: u32)
    requires
        a < 256,
        b < 256,
        c < 256,
        4 <= s <= 8,
    ensures
        ({
            let x = a | (b << 8u32) | (c << 16u32);
            ((((x >> s) & 31u32) | (((x >> (s + 5)) & 31u32) << 5u32) | (((x >> (s + 10))
                & 31u32) << 10u32)) >> ((8 - s) as u32)) & 255u32 == b
        }),
{
    assert(({
        let x = a | (b << 8u32) | (c << 16u32);
        ((((x >> s) & 31u32) | (((x >> (s + 5)) & 31u32) << 5u32) | (((x >> (s + 10)) & 31u32)
            << 10u32)) >> ((8 - s) as u32)) & 255u32 == b
    })) by (bit_vector)
        requires
            a < 256,
            b < 256,
            c < 256,
            4 <= s <= 8,
    ;
}

/// `x` read around byte `j`: bytes `j-1`, `j`, `j+1` as a 24-bit little-endian number.
spec fn window(x: Seq<u8>, j: int) -> u32 {
    byte_at(x, j - 1) | (byte_at(x, j) << 8u32) | (byte_at(x, j + 1) << 16u32)
}

proof fn lemma_digit_window(x: Seq<u8>, i: int, j: int)
    requires
        0 <= i,
        0 <= j,
        8 * j - 8 <= 5 * i <= 8 * j + 10,
    ensures
        digit_at(x, i) == (window(x, j) >> ((5 * i - 8 * j + 8) as u32)) & 31u32,
{
    let b = 5 * i;
    let q = b / 8;
    let r = b % 8;
    let a0 = byte_at(x, j - 1);
    let a1 = byte_at(x, j);
    let a2 = byte_at(x, j + 1);
    let a3 = byte_at(x, j + 2);
    assert(a0 < 256 && a1 < 256 && a2 < 256 && a3 < 256);
    if q == j - 1 {
        lemma_bits_low(a0, a1, a2, r as u32);
        assert(5 * i - 8 * j + 8 == r);
    } else if q == j {
        lemma_bits_mid(a0, a1, a2, r as u32);
        assert(5 * i - 8 * j + 8 == r + 8);
    } else {
        assert(q == j + 1);
        lemma_bits_high(a0, a1, a2, a3, r as u32);
        assert(5 * i - 8 * j + 8 == r + 16);
    }
}

proof fn lemma_digit_small(s: Seq<u8>, k: int)
    ensures
        digit_at(s, k) < 32,
{
    let x = (byte_at(s, 5 * k / 8 + 1) << 8u32) | byte_at(s, 5 * k / 8);
    let r = ((5 * k) % 8) as u32;
    assert((x >> r) & 31u32 < 32) by (bit_vector);
}

proof fn lemma_digit_past_end(s: Seq<u8>, k: int)
    requires
        5 * k >= 8 * s.len(),
    ensures
        digit_at(s, k) == 0,
{
    let r = ((5 * k) % 8) as u32;
    assert(byte_at(s, 5 * k / 8) == 0);
    assert(byte_at(s, 5 * k / 8 + 1) == 0);
    assert((((0u32 << 8u32) | 0u32) >> r) & 31u32 == 0) by (bit_vector);
}

/// Decoding what `nix_base32_encode` produced gives back the input; the encoding has
/// `ceil(8n / 5)` digits, all of the alphabet.
pub proof fn lemma_nix_base32_roundtrip(x: Seq<u8>)
    ensures
        nix_base32_encode(x).len() == (8 * x.len() + 4) / 5,
        all_base32(nix_base32_encode(x)),
        nix_base32_decode(nix_base32_encode(x)) == Some(x),
        !nix_base32_decode_panics(nix_base32_encode(x)),
{
    let n = x.len() as int;
    let enc = nix_base32_encode(x);
    let l = encoded_len(n);
    assert(enc.len() == l);
    assert forall|j: int| 0 <= j < enc.len() implies (#[trigger] base32_value(enc[j])) is Some
        && base32_value(enc[j]).unwrap() == digit_at(x, l - 1 - j) by {
        lemma_digit_small(x, l - 1 - j);
    }
    assert(all_base32(enc));
    assert forall|i: int| 0 <= i implies #[trigger] rev_digit(enc, i) == digit_at(x, i) by {
        if i < l {
            assert(base32_value(enc[l - 1 - i]).unwrap() == digit_at(x, l - 1 - (l - 1 - i)));
        } else {
            assert(5 * i >= 8 * n) by (nonlinear_arith)
                requires
                    i >= l,
                    l == (n * 8 + 4) / 5,
                    n >= 0,
            ;
            lemma_digit_past_end(x, i);
        }
    }
    assert(l * 5 / 8 == n) by (nonlinear_arith)
        requires
            l == (n * 8 + 4) / 5,
            n >= 0,
    ;
    assert forall|j: int| 0 <= j < n implies #[trigger] decoded_byte(enc, j) == x[j] by {
        let b = 8 * j;
        let i0 = b / 5;
        let s = 5 * i0 - 8 * j + 8;
        assert(4 <= s <= 8);
        lemma_digit_window(x, i0, j);
        lemma_digit_window(x, i0 + 1, j);
        lemma_digit_window(x, i0 + 2, j);
        assert(5 * (i0 + 1) - 8 * j + 8 == s + 5);
        assert(5 * (i0 + 2) - 8 * j + 8 == s + 10);
        assert(b % 5 == 8 - s);
        lemma_bits_window(byte_at(x, j - 1), byte_at(x, j), byte_at(x, j + 1), s as u32);
        assert(byte_at(x, j) == x[j] as u32);
    }
    assert(Seq::new((enc.len() * 5 / 8) as nat, |j: int| decoded_byte(enc, j)) =~= x);
    if enc.len() > 0 {
        assert((5 * l - 5) / 8 < (5 * l) / 8) by (nonlinear_arith)
            requires
                l == (n * 8 + 4) / 5,
                n >= 1,
        ;
    }
}


proof fn lemma_char_of_value(b: u8)
    requires
        base32_value(b) is Some,
    ensures
        base32_char(base32_value(b).unwrap()) == b,
        base32_value(b).unwrap() < 32,
{
}

/// Six digits packed into 30 bits.
spec fn pack6(a: u32, b: u32, c: u32, d: u32, e: u32, f: u32) -> u32 {
    a | (b << 5u32) | (c << 10u32) | (d << 15u32) | (e << 20u32) | (f << 25u32)
}

proof fn lemma_pack6(a: u32, b: u32, c: u32, d: u32, e: u32, f: u32)
    requires
        a < 32,
        b < 32,
        c < 32,
        d < 32,
        e < 32,
        f < 32,
    ensures
        pack6(a, b, c, d, e, f) < 0x4000_0000,
        (pack6(a, b, c, d, e, f) >> 0u32) & 31u32 == a,
        (pack6(a, b, c, d, e, f) >> 5u32) & 31u32 == b,
        (pack6(a, b, c, d, e, f) >> 10u32) & 31u32 == c,
        (pack6(a, b, c, d, e, f) >> 15u32) & 31u32 == d,
        (pack6(a, b, c, d, e, f) >> 20u32) & 31u32 == e,
        (pack6(a, b, c, d, e, f) >> 25u32) & 31u32 == f,
{
    assert({
        let z = a | (b << 5u32) | (c << 10u32) | (d << 15u32) | (e << 20u32) | (f << 25u32);
        &&& z < 0x4000_0000
        &&& (z >> 0u32) & 31u32 == a
        &&& (z >> 5u32) & 31u32 == b
        &&& (z >> 10u32) & 31u32 == c
        &&& (z >> 15u32) & 31u32 == d
        &&& (z >> 20u32) & 31u32 == e
        &&& (z >> 25u32) & 31u32 == f
    }) by (bit_vector)
        requires
            a < 32,
            b < 32,
            c < 32,
            d < 32,
            e < 32,
            f < 32,
    ;
}

proof fn lemma_digits_to_byte(z: u32, u: u32, off: u32)
    requires
        z < 0x4000_0000,
        u <= 3,
        off <= 4,
    ensures
        ((((z >> (5 * u) as u32) & 31u32) | (((z >> (5 * u + 5) as u32) & 31u32) << 5u32) | (((z
            >> (5 * u + 10) as u32) & 31u32) << 10u32)) >> off) & 255u32 == (z >> (5 * u
            + off) as u32) & 255u32,
{
    assert(((((z >> (5 * u) as u32) & 31u32) | (((z >> (5 * u + 5) as u32) & 31u32) << 5u32) | (((
    z >> (5 * u + 10) as u32) & 31u32) << 10u32)) >> off) & 255u32 == (z >> (5 * u
        + off) as u32) & 255u32) by (bit_vector)
        requires
            z < 0x4000_0000,
            u <= 3,
            off <= 4,
    ;
}

proof fn lemma_bytes_to_digit(z: u32, r: u32)
    requires
        z < 0x4000_0000,
        r <= 7,
    ensures
        (((((z >> (18 - r) as u32) & 255u32) << 8u32) | ((z >> (10 - r) as u32) & 255u32)) >> r)
            & 31u32 == (z >> 10u32) & 31u32,
        r <= 3 ==> ((((0u32) << 8u32) | ((z >> (10 - r) as u32) & 255u32)) >> r) & 31u32 == (z
            >> 10u32) & 31u32,
{
    assert((((((z >> (18 - r) as u32) & 255u32) << 8u32) | ((z >> (10 - r) as u32) & 255u32)) >> r)
        & 31u32 == (z >> 10u32) & 31u32) by (bit_vector)
        requires
            z < 0x4000_0000,
            r <= 7,
    ;
    assert(r <= 3 ==> ((((0u32) << 8u32) | ((z >> (10 - r) as u32) & 255u32)) >> r) & 31u32 == (z
        >> 10u32) & 31u32) by (bit_vector)
        requires
            z < 0x4000_0000,
            r <= 7,
    ;
}

/// The digits of `s` around digit `i`, from `i - 2` to `i + 3`, packed into 30 bits.
spec fn digit_window(s: Seq<u8>, i: int) -> u32 {
    pack6(
        rev_digit(s, i - 2),
        rev_digit(s, i - 1),
        rev_digit(s, i),
        rev_digit(s, i + 1),
        rev_digit(s, i + 2),
        rev_digit(s, i + 3),
    )
}

proof fn lemma_rev_digit_small(s: Seq<u8>, i: int)
    requires
        all_base32(s),
    ensures
        rev_digit(s, i) < 32,
{
    if 0 <= i < s.len() {
        lemma_char_of_value(s[s.len() - 1 - i]);
    }
}

proof fn lemma_digit_window_facts(s: Seq<u8>, i: int)
    requires
        all_base32(s),
    ensures
        digit_window(s, i) < 0x4000_0000,
        forall|m: int|
            0 <= m < 6 ==> (#[trigger] (digit_window(s, i) >> (5 * m) as u32)) & 31u32
                == rev_digit(s, i - 2 + m),
{
    lemma_rev_digit_small(s, i - 2);
    lemma_rev_digit_small(s, i - 1);
    lemma_rev_digit_small(s, i);
    lemma_rev_digit_small(s, i + 1);
    lemma_rev_digit_small(s, i + 2);
    lemma_rev_digit_small(s, i + 3);
    lemma_pack6(
        rev_digit(s, i - 2),
        rev_digit(s, i - 1),
        rev_digit(s, i),
        rev_digit(s, i + 1),
        rev_digit(s, i + 2),
        rev_digit(s, i + 3),
    );
    assert forall|m: int| 0 <= m < 6 implies (#[trigger] (digit_window(s, i) >> (5 * m) as u32))
        & 31u32 == rev_digit(s, i - 2 + m) by {
        if m == 0 {
        } else if m == 1 {
        } else if m == 2 {
        } else if m == 3 {
        } else if m == 4 {
        } else {
        }
    }
}

/// Byte `q` of the decoding, read from the digit window around digit `i`.
proof fn lemma_decoded_byte_in_window(s: Seq<u8>, i: int, q: int)
    requires
        all_base32(s),
        0 <= q,
        5 * i - 8 <= 8 * q <= 5 * i + 8,
    ensures
        decoded_byte(s, q) as u32 == (digit_window(s, i) >> (8 * q - 5 * i + 10) as u32) & 255u32,
{
    let z = digit_window(s, i);
    lemma_digit_window_facts(s, i);
    let i0 = 8 * q / 5;
    let u = i0 - i + 2;
    let off = 8 * q - 5 * i0;
    assert(0 <= u <= 3);
    assert(0 <= off <= 4);
    assert((z >> (5 * u) as u32) & 31u32 == rev_digit(s, i0));
    assert((z >> (5 * (u + 1)) as u32) & 31u32 == rev_digit(s, i0 + 1));
    assert((z >> (5 * (u + 2)) as u32) & 31u32 == rev_digit(s, i0 + 2));
    assert(5 * (u + 1) == 5 * u + 5);
    assert(5 * (u + 2) == 5 * u + 10);
    lemma_digits_to_byte(z, u as u32, off as u32);
    assert(5 * u + off == 8 * q - 5 * i + 10);
    let w = rev_digit(s, i0) | (rev_digit(s, i0 + 1) << 5u32) | (rev_digit(s, i0 + 2) << 10u32);
    let o = off as u32;
    assert((w >> o) & 255u32 < 256) by (bit_vector);
}

/// Encoding the decoding of a valid string whose length is a multiple of 8 gives the
/// string back: such lengths carry exactly whole bytes, so no bit is dropped.
pub proof fn lemma_nix_base32_roundtrip_text(s: Seq<u8>)
    requires
        all_base32(s),
        s.len() % 8 == 0,
    ensures
        nix_base32_decode(s) is Some,
        nix_base32_encode(nix_base32_decode(s).unwrap()) == s,
{
    let l = s.len() as int;
    let n = l * 5 / 8;
    let y = nix_base32_decode(s).unwrap();
    assert(y.len() == n);
    assert(8 * n == 5 * l);
    assert(encoded_len(n) == l);
    let enc = nix_base32_encode(y);
    assert forall|j: int| 0 <= j < l implies #[trigger] enc[j] == s[j] by {
        let i = l - 1 - j;
        let q = 5 * i / 8;
        let r = 5 * i % 8;
        let z = digit_window(s, i);
        lemma_digit_window_facts(s, i);
        assert(q < n);
        lemma_decoded_byte_in_window(s, i, q);
        assert(8 * q - 5 * i + 10 == 10 - r);
        assert(byte_at(y, q) == decoded_byte(s, q) as u32);
        if q + 1 < n {
            lemma_decoded_byte_in_window(s, i, q + 1);
            assert(8 * (q + 1) - 5 * i + 10 == 18 - r);
            assert(byte_at(y, q + 1) == decoded_byte(s, q + 1) as u32);
        } else {
            assert(r <= 3);
            assert(byte_at(y, q + 1) == 0);
        }
        lemma_bytes_to_digit(z, r as u32);
        assert((z >> (5 * 2) as u32) & 31u32 == rev_digit(s, i));
        assert(digit_at(y, i) == rev_digit(s, i));
        lemma_char_of_value(s[j]);
    }
    assert(enc =~= s);
}


/// The encoding of `x` as the characters of a string.
pub open spec fn nix_base32_string(x: Seq<u8>) -> Seq<char> {
    nix_base32_encode(x).map_values(|b: u8| b as char)
}

/// The UTF-8 bytes of an encoding are the encoded bytes (every digit is ASCII).
pub proof fn lemma_nix_base32_string_bytes(x: Seq<u8>)
    ensures
        encode_utf8(nix_base32_string(x)) == nix_base32_encode(x),
{
    let e = nix_base32_encode(x);
    let c = nix_base32_string(x);
    assert forall|i: int| 0 <= i < c.len() implies '\0' <= #[trigger] c[i] <= '\u{7f}' by {
        lemma_digit_small(x, encoded_len(x.len() as int) - 1 - i);
    }
    assert(is_ascii_chars(c));
    is_ascii_chars_encode_utf8(c);
    assert forall|i: int| 0 <= i < c.len() implies encode_utf8(c)[i] == e[i] by {
        assert(c[i] as u8 == encode_utf8(c)[i]);
    }
    assert(encode_utf8(c) =~= e);
}

/// Every character of an encoding is a digit or a lowercase ASCII letter.
pub proof fn lemma_nix_base32_string_chars(x: Seq<u8>)
    ensures
        forall|i: int|
            0 <= i < nix_base32_string(x).len() ==> ('0' <= #[trigger] nix_base32_string(x)[i] <= '9') || (
            'a' <= nix_base32_string(x)[i] <= 'z'),
{
    let l = encoded_len(x.len() as int);
    assert forall|i: int|
        0 <= i < nix_base32_string(x).len() implies ('0' <= #[trigger] nix_base32_string(x)[i] <= '9') || (
        'a' <= nix_base32_string(x)[i] <= 'z') by {
        lemma_digit_small(x, l - 1 - i);
        let b = base32_char(digit_at(x, l - 1 - i));
        assert(nix_base32_encode(x)[i] == b);
        assert((48 <= b <= 57) || (97 <= b <= 122));
        assert(nix_base32_string(x)[i] == b as char);
    }
}

/// `from_nix_base32(&to_nix_base32(x)) == Ok(x)`.
pub proof fn lemma_nix_base32_string_roundtrip(x: Seq<u8>)
    ensures
        nix_base32_decode(encode_utf8(nix_base32_string(x))) == Some(x),
        !nix_base32_decode_panics(encode_utf8(nix_base32_string(x))),
{
    lemma_nix_base32_string_bytes(x);
    lemma_nix_base32_roundtrip(x);
}

/// Whether two byte strings are equal.
pub fn bytes_eq(a: &[u8], b: &[u8]) -> (r: bool)
    ensures
        r == (a@ == b@),
{
    if a.len() != b.len() {
        return false;
    }
    let mut i: usize = 0;
    while i < a.len()
        invariant
            a@.len() == b@.len(),
            i <= a@.len(),
            forall|k: int| 0 <= k < i ==> a@[k] == b@[k],
        decreases a@.len() - i,
    {
        if a[i] != b[i] {
            return false;
        }
        i += 1;
    }
    proof {
        assert(a@ =~= b@);
    }
    true
}

// ---------------------------------------------------------------------------
// Hashes
// ---------------------------------------------------------------------------

/// The SHA-256 digest of `data` (what `sha2::Sha256::digest` returns).
pub uninterp spec fn sha256_digest(data: Seq<u8>) -> Seq<u8>;

/// Calls `sha2::Sha256::digest`. Trusted: the result is `sha256_digest(data)`, a
/// function of the data alone, and has 32 bytes.
#[verifier::external_body]
pub(crate) fn sha256_bytes(data: &[u8]) -> (r: Vec<u8>)
    ensures
        r@ == sha256_digest(data@),
        r@.len() == 32,
{
    sha2::Sha256::digest(data).to_vec()
}

/// Hash algorithm used by Nix.
#[derive(Debug, Clone, Copy, PartialEq, Eq, Structural)]
pub enum HashAlgo {
    Sha256,
    Sha512,
    Sha1,
    Md5,
}

impl HashAlgo {
    /// Number of bytes in a digest of this algorithm.
    pub open spec fn spec_digest_len(self) -> nat {
        match self {
            HashAlgo::Sha256 => 32,
            HashAlgo::Sha512 => 64,
            HashAlgo::Sha1 => 20,
            HashAlgo::Md5 => 16,
        }
    }

    /// The name Nix uses for the algorithm.
    pub open spec fn name(self) -> Seq<char> {
        match self {
            HashAlgo::Sha256 => "sha256"@,
            HashAlgo::Sha512 => "sha512"@,
            HashAlgo::Sha1 => "sha1"@,
            HashAlgo::Md5 => "md5"@,
        }
    }

    /// How many bytes a digest of this algorithm has.
    pub fn digest_len(&self) -> (r: usize)
        ensures
            r == self.spec_digest_len(),
    {
        match self {
            HashAlgo::Sha256 => 32,
            HashAlgo::Sha512 => 64,
            HashAlgo::Sha1 => 20,
            HashAlgo::Md5 => 16,
        }
    }

    /// The algorithm's name, as `Display` writes it.
    pub fn as_str(&self) -> (r: &'static str)
        ensures
            r@ == self.name(),
    {
        match self {
            HashAlgo::Sha256 => "sha256",
            HashAlgo::Sha512 => "sha512",
            HashAlgo::Sha1 => "sha1",
            HashAlgo::Md5 => "md5",
        }
    }
}

/// The algorithm with the given name.
pub open spec fn algo_named(name: Seq<char>) -> Option<HashAlgo> {
    if name == "sha256"@ {
        Some(HashAlgo::Sha256)
    } else if name == "sha512"@ {
        Some(HashAlgo::Sha512)
    } else if name == "sha1"@ {
        Some(HashAlgo::Sha1)
    } else if name == "md5"@ {
        Some(HashAlgo::Md5)
    } else {
        None
    }
}

/// A Nix hash: algorithm + raw digest bytes.
#[derive(Debug, Clone, PartialEq, Eq)]
pub struct NixHash {
    pub algo: HashAlgo,
    pub digest: Vec<u8>,
}

/// What `NixHash::parse` accepts: `<algo>:<nix-base32 digest>` where the digest has the
/// algorithm's length.
pub open spec fn parse_nix_hash_spec(s: Seq<char>) -> Option<(HashAlgo, Seq<u8>)> {
    match first_index(s, ':') {
        None => None,
        Some(k) => match algo_named(s.take(k)) {
            None => None,
            Some(algo) => match nix_base32_decode(encode_utf8(s.skip(k + 1))) {
                None => None,
                Some(d) => if d.len() == algo.spec_digest_len() {
                    Some((algo, d))
                } else {
                    None
                },
            },
        },
    }
}

/// The inputs on which `NixHash::parse` reaches the decoder's out-of-bounds index.
pub open spec fn parse_nix_hash_panics(s: Seq<char>) -> bool {
    match first_index(s, ':') {
        None => false,
        Some(k) => algo_named(s.take(k)) is Some && nix_base32_decode_panics(
            encode_utf8(s.skip(k + 1)),
        ),
    }
}

/// `<algo>:<nix-base32 digest>`, as `Display` writes a hash.
pub open spec fn nix_hash_text(algo: HashAlgo, digest: Seq<u8>) -> Seq<char> {
    algo.name() + ":"@ + nix_base32_string(digest)
}

/// Whether decoding the Nix-base32 bytes would index past the output buffer.
fn decode_panics_exec(b: &[u8]) -> (r: bool)
    ensures
        r == nix_base32_decode_panics(b@),
{
    let n = b.len();
    if n == 0 {
        return false;
    }
    let mut i: usize = 0;
    while i < n
        invariant
            n == b@.len(),
            i <= n,
            forall|k: int| 0 <= k < i ==> (#[trigger] base32_value(b@[k])) is Some,
        decreases n - i,
    {
        if base32_value_exec(b[i]).is_none() {
            return false;
        }
        i += 1;
    }
    let m = n as u128;
    (5 * m - 5) / 8 == (5 * m) / 8
}

/// Whether `NixHash::parse` would index past the decoder's output on `s` (what
/// `parse_nix_hash_panics` says).
pub fn nix_hash_parse_panics(s: &str) -> (r: bool)
    ensures
        r == parse_nix_hash_panics(s@),
{
    let v = chars_of(s);
    let k = match find_char(&v, 0, v.len(), ':') {
        Some(k) => k,
        None => {
            proof {
                lemma_first_index_none(s@, ':');
            }
            return false;
        },
    };
    proof {
        lemma_first_index(s@, ':', k as int);
        assert(v@.subrange(0, k as int) =~= s@.take(k as int));
        assert(v@.subrange(k + 1, v@.len() as int) =~= s@.skip(k + 1));
    }
    let known = range_eq_str(&v, 0, k, "sha256") || range_eq_str(&v, 0, k, "sha512")
        || range_eq_str(&v, 0, k, "sha1") || range_eq_str(&v, 0, k, "md5");
    if !known {
        return false;
    }
    let rest = string_of(&v, k + 1, v.len());
    decode_panics_exec(rest.as_str().as_bytes())
}

/// The message `NixHash::parse` gives for text it does not accept.
pub open spec fn nix_hash_error(s: Seq<char>) -> Seq<char> {
    match first_index(s, ':') {
        None => "hash missing ':' separator"@,
        Some(k) => match algo_named(s.take(k)) {
            None => "unknown hash algorithm: '"@ + s.take(k) + "'"@,
            Some(algo) => match nix_base32_decode(encode_utf8(s.skip(k + 1))) {
                None => base32_error(s.skip(k + 1)),
                Some(d) => "hash digest length mismatch: expected "@ + crate::text::decimal(
                    algo.spec_digest_len() as nat,
                ) + ", got "@ + crate::text::decimal(d.len()),
            },
        },
    }
}

impl NixHash {
    /// Parse `"sha256:1impfh..."` (algo:nix-base32) format.
    pub fn parse(s: &str) -> (r: Result<NixHash, NiphasError>)
        requires
            !parse_nix_hash_panics(s@),
        ensures
            match r {
                Ok(h) => parse_nix_hash_spec(s@) == Some((h.algo, h.digest@)),
                Err(e) => parse_nix_hash_spec(s@) is None && (e matches NiphasError::NarInfoParse(m)
                    && m@ == nix_hash_error(s@)),
            },
    {
        let v = chars_of(s);
        let k = match find_char(&v, 0, v.len(), ':') {
            Some(k) => k,
            None => {
                proof {
                    lemma_first_index_none(s@, ':');
                }
                let mut m = String::new();
                push_str(&mut m, "hash missing ':' separator");
                return Err(NiphasError::NarInfoParse(m));
            },
        };
        proof {
            lemma_first_index(s@, ':', k as int);
            assert(v@.subrange(0, k as int) =~= s@.take(k as int));
            assert(v@.subrange(k + 1, v@.len() as int) =~= s@.skip(k + 1));
        }
        let algo = if range_eq_str(&v, 0, k, "sha256") {
            HashAlgo::Sha256
        } else if range_eq_str(&v, 0, k, "sha512") {
            HashAlgo::Sha512
        } else if range_eq_str(&v, 0, k, "sha1") {
            HashAlgo::Sha1
        } else if range_eq_str(&v, 0, k, "md5") {
            HashAlgo::Md5
        } else {
            let mut m = String::new();
            push_str(&mut m, "unknown hash algorithm: '");
            crate::text::push_range(&mut m, &v, 0, k);
            push_str(&mut m, "'");
            return Err(NiphasError::NarInfoParse(m));
        };
        let rest = string_of(&v, k + 1, v.len());
        let digest = match from_nix_base32(rest.as_str()) {
            Ok(d) => d,
            Err(e) => return Err(e),
        };
        if digest.len() != algo.digest_len() {
            let mut m = String::new();
            push_str(&mut m, "hash digest length mismatch: expected ");
            crate::text::push_u64(&mut m, algo.digest_len() as u64);
            push_str(&mut m, ", got ");
            crate::text::push_u64(&mut m, digest.len() as u64);
            return Err(NiphasError::NarInfoParse(m));
        }
        Ok(NixHash { algo, digest })
    }

    /// Verify that `data` matches this hash. Only SHA-256 is supported.
    pub fn verify(&self, data: &[u8]) -> (r: Result<(), NiphasError>)
        requires
            self.digest@.len() * 8 + 4 <= usize::MAX,
        ensures
            r is Ok <==> (self.algo == HashAlgo::Sha256 && sha256_digest(data@) == self.digest@),
            match r {
                Ok(_) => true,
                Err(NiphasError::HashMismatch { expected, actual }) => self.algo == HashAlgo::Sha256
                    && expected@ == nix_base32_string(self.digest@) && actual@ == nix_base32_string(
                    sha256_digest(data@),
                ),
                Err(e) => self.algo != HashAlgo::Sha256 && (e matches NiphasError::NarInfoParse(m)
                    && m@ == "verification not implemented for "@ + self.algo.name()),
            },
    {
        match self.algo {
            HashAlgo::Sha256 => {
                let computed = sha256_bytes(data);
                if bytes_eq(&computed, &self.digest) {
                    Ok(())
                } else {
                    Err(
                        NiphasError::HashMismatch {
                            expected: to_nix_base32(&self.digest),
                            actual: to_nix_base32(&computed),
                        },
                    )
                }
            },
            _ => {
                let mut msg = String::new();
                push_str(&mut msg, "verification not implemented for ");
                push_str(&mut msg, self.algo.as_str());
                Err(NiphasError::NarInfoParse(msg))
            },
        }
    }

    /// `<algo>:<nix-base32 digest>`, as `Display` writes it.
    pub fn to_string(&self) -> (r: String)
        requires
            self.digest@.len() * 8 + 4 <= usize::MAX,
        ensures
            r@ == nix_hash_text(self.algo, self.digest@),
    {
        let mut r = String::new();
        push_str(&mut r, self.algo.as_str());
        push_str(&mut r, ":");
        let d = to_nix_base32(&self.digest);
        push_str(&mut r, d.as_str());
        r
    }
}

/// Compute SHA-256 of data and return as NixHash.
pub fn sha256_hash(data: &[u8]) -> (r: NixHash)
    ensures
        r.algo == HashAlgo::Sha256,
        r.digest@ == sha256_digest(data@),
        r.digest@.len() == 32,
{
    NixHash { algo: HashAlgo::Sha256, digest: sha256_bytes(data) }
}

/// Whether two hashes are equal (`==`).
pub fn nix_hash_eq(a: &NixHash, b: &NixHash) -> (r: bool)
    ensures
        r == (a.algo == b.algo && a.digest@ == b.digest@),
{
    a.algo == b.algo && bytes_eq(&a.digest, &b.digest)
}

/// A hash's text parses back to the same hash.
pub proof fn lemma_nix_hash_text_roundtrip(algo: HashAlgo, digest: Seq<u8>)
    requires
        digest.len() == algo.spec_digest_len(),
    ensures
        parse_nix_hash_spec(nix_hash_text(algo, digest)) == Some((algo, digest)),
        !parse_nix_hash_panics(nix_hash_text(algo, digest)),
{
    let t = nix_hash_text(algo, digest);
    let name = algo.name();
    reveal_strlit("sha256");
    reveal_strlit("sha512");
    reveal_strlit("sha1");
    reveal_strlit("md5");
    reveal_strlit(":");
    let k = name.len() as int;
    assert(forall|i: int| 0 <= i < k ==> name[i] != ':');
    assert(t[k] == ':');
    lemma_first_index(t, ':', k);
    assert(t.take(k) =~= name);
    assert(t.skip(k + 1) =~= nix_base32_string(digest));
    lemma_nix_base32_string_roundtrip(digest);
    match algo {
        HashAlgo::Sha256 => {
            assert(algo_named(name) == Some(algo));
        },
        HashAlgo::Sha512 => {
            assert(name[5] != "sha256"@[5]);
            assert(algo_named(name) == Some(algo));
        },
        HashAlgo::Sha1 => {
            assert(name.len() != "sha256"@.len());
            assert(algo_named(name) == Some(algo));
        },
        HashAlgo::Md5 => {
            assert(name[0] != "sha256"@[0]);
            assert(name.len() != "sha1"@.len());
            assert(algo_named(name) == Some(algo));
        },
    }
}

} // verus!
