use vstd::prelude::*;

verus! {

/// Appends one character to a `String`.
pub assume_specification[ String::push ](s: &mut String, ch: char)
    ensures
        final(s)@ == old(s)@.push(ch),
;

// ---------------------------------------------------------------------------
// Characters
// ---------------------------------------------------------------------------

/// ASCII letter.
pub open spec fn is_ascii_alpha(c: char) -> bool {
    ('a' <= c && c <= 'z') || ('A' <= c && c <= 'Z')
}

/// ASCII decimal digit.
pub open spec fn is_ascii_digit(c: char) -> bool {
    '0' <= c && c <= '9'
}

/// ASCII letter or digit.
pub open spec fn is_ascii_alnum(c: char) -> bool {
    is_ascii_alpha(c) || is_ascii_digit(c)
}

/// ASCII hexadecimal digit (either case).
pub open spec fn is_ascii_hex(c: char) -> bool {
    is_ascii_digit(c) || ('a' <= c && c <= 'f') || ('A' <= c && c <= 'F')
}

/// Characters with the Unicode `White_Space` property, which is what
/// `char::is_whitespace` tests.
pub open spec fn is_whitespace(c: char) -> bool {
    ('\u{9}' <= c && c <= '\u{d}') || c == ' ' || c == '\u{85}' || c == '\u{a0}' || c
        == '\u{1680}' || ('\u{2000}' <= c && c <= '\u{200a}') || c == '\u{2028}' || c == '\u{2029}'
        || c == '\u{202f}' || c == '\u{205f}' || c == '\u{3000}'
}

/// Whether `c` is an ASCII letter.
pub fn ascii_alpha(c: char) -> (r: bool)
    ensures
        r == is_ascii_alpha(c),
{
    ('a' <= c && c <= 'z') || ('A' <= c && c <= 'Z')
}

/// Whether `c` is an ASCII digit.
pub fn ascii_digit(c: char) -> (r: bool)
    ensures
        r == is_ascii_digit(c),
{
    '0' <= c && c <= '9'
}

/// Whether `c` is an ASCII letter or digit.
pub fn ascii_alnum(c: char) -> (r: bool)
    ensures
        r == is_ascii_alnum(c),
{
    ascii_alpha(c) || ascii_digit(c)
}

/// Whether `c` is an ASCII hex digit.
pub fn ascii_hex(c: char) -> (r: bool)
    ensures
        r == is_ascii_hex(c),
{
    ascii_digit(c) || ('a' <= c && c <= 'f') || ('A' <= c && c <= 'F')
}

/// Whether `c` is whitespace, as `char::is_whitespace` says.
pub fn whitespace(c: char) -> (r: bool)
    ensures
        r == is_whitespace(c),
{
    ('\u{9}' <= c && c <= '\u{d}') || c == ' ' || c == '\u{85}' || c == '\u{a0}' || c
        == '\u{1680}' || ('\u{2000}' <= c && c <= '\u{200a}') || c == '\u{2028}' || c == '\u{2029}'
        || c == '\u{202f}' || c == '\u{205f}' || c == '\u{3000}'
}

// ---------------------------------------------------------------------------
// Strings as character sequences
// ---------------------------------------------------------------------------

/// The characters of `s`, in order.
pub fn chars_of(s: &str) -> (r: Vec<char>)
    ensures
        r@ == s@,
{
    let mut r: Vec<char> = Vec::new();
    for c in it: s.chars()
        invariant
            r@ == it.seq().take(it.index() as int),
    {
        r.push(c);
    }
    r
}

/// Appends the characters `v[from..to]` to `s`.
pub fn push_range(s: &mut String, v: &[char], from: usize, to: usize)
    requires
        from <= to <= v@.len(),
    ensures
        final(s)@ == old(s)@ + v@.subrange(from as int, to as int),
{
    let mut i = from;
    while i < to
        invariant
            from <= i <= to <= v@.len(),
            s@ == old(s)@ + v@.subrange(from as int, i as int),
        decreases to - i,
    {
        s.push(v[i]);
        proof {
            assert(v@.subrange(from as int, i + 1) =~= v@.subrange(from as int, i as int).push(
                v@[i as int],
            ));
        }
        i += 1;
    }
}

/// A `String` holding the characters `v[from..to]`.
pub fn string_of(v: &[char], from: usize, to: usize) -> (r: String)
    requires
        from <= to <= v@.len(),
    ensures
        r@ == v@.subrange(from as int, to as int),
{
    let mut r = String::new();
    push_range(&mut r, v, from, to);
    r
}

/// Appends `t` to `s`.
pub fn push_str(s: &mut String, t: &str)
    ensures
        final(s)@ == old(s)@ + t@,
{
    s.append(t);
}

/// Whether `v[from..to]` spells `lit`.
pub fn range_eq_str(v: &[char], from: usize, to: usize, lit: &str) -> (r: bool)
    requires
        from <= to <= v@.len(),
    ensures
        r == (v@.subrange(from as int, to as int) == lit@),
{
    let n = lit.unicode_len();
    if to - from != n {
        return false;
    }
    let mut i: usize = 0;
    while i < n
        invariant
            from <= to <= v@.len(),
            to - from == n,
            n == lit@.len(),
            i <= n,
            forall|k: int| 0 <= k < i ==> v@[from + k] == lit@[k],
        decreases n - i,
    {
        if v[from + i] != lit.get_char(i) {
            proof {
                assert(v@.subrange(from as int, to as int)[i as int] != lit@[i as int]);
            }
            return false;
        }
        i += 1;
    }
    proof {
        assert(v@.subrange(from as int, to as int) =~= lit@);
    }
    true
}

/// Whether two strings hold the same characters.
pub fn str_eq(a: &str, b: &str) -> (r: bool)
    ensures
        r == (a@ == b@),
{
    let v = chars_of(a);
    let r = range_eq_str(&v, 0, v.len(), b);
    proof {
        assert(v@.subrange(0, v@.len() as int) =~= v@);
    }
    r
}

/// The index of the first `c` in `s`, if any.
pub open spec fn first_index(s: Seq<char>, c: char) -> Option<int> {
    if exists|i: int| 0 <= i < s.len() && s[i] == c {
        Some(choose|i: int| 0 <= i < s.len() && s[i] == c && forall|k: int| 0 <= k < i ==> s[k] != c)
    } else {
        None
    }
}

proof fn lemma_min_index(s: Seq<char>, c: char, i: int)
    requires
        0 <= i < s.len(),
        s[i] == c,
    ensures
        exists|m: int| 0 <= m < s.len() && s[m] == c && forall|k: int| 0 <= k < m ==> s[k] != c,
    decreases i,
{
    if exists|j: int| 0 <= j < i && s[j] == c {
        let j = choose|j: int| 0 <= j < i && s[j] == c;
        lemma_min_index(s, c, j);
    } else {
        assert(forall|k: int| 0 <= k < i ==> s[k] != c);
    }
}

/// What `first_index` finds: the first `c`, or none at all.
pub proof fn lemma_first_index_some(s: Seq<char>, c: char)
    ensures
        match first_index(s, c) {
            Some(k) => 0 <= k < s.len() && s[k] == c && forall|j: int| 0 <= j < k ==> s[j] != c,
            None => forall|j: int| 0 <= j < s.len() ==> s[j] != c,
        },
{
    if exists|i: int| 0 <= i < s.len() && s[i] == c {
        let i = choose|i: int| 0 <= i < s.len() && s[i] == c;
        lemma_min_index(s, c, i);
    }
}

/// The first index from `from` on whose character `ok` rejects, if any.
pub open spec fn first_failing(s: Seq<char>, from: int, ok: spec_fn(char) -> bool) -> Option<int> {
    if exists|i: int| from <= i < s.len() && !ok(s[i]) {
        Some(
            choose|i: int|
                from <= i < s.len() && !ok(s[i]) && forall|j: int| from <= j < i ==> ok(s[j]),
        )
    } else {
        None
    }
}

/// The first rejected character from `from` on is at `i`.
pub proof fn lemma_first_failing(s: Seq<char>, from: int, ok: spec_fn(char) -> bool, i: int)
    requires
        from <= i < s.len(),
        !ok(s[i]),
        forall|j: int| from <= j < i ==> ok(s[j]),
    ensures
        first_failing(s, from, ok) == Some(i),
{
    assert(exists|i: int| from <= i < s.len() && !ok(s[i]));
    let j = choose|j: int| from <= j < s.len() && !ok(s[j]) && forall|k: int| from <= k < j ==> ok(s[k]);
    assert(from <= j < s.len() && !ok(s[j]) && forall|k: int| from <= k < j ==> ok(s[k]));
    if j < i {
        assert(ok(s[j]));
    } else if j > i {
        assert(ok(s[i]));
    }
}

/// No character from `from` on is rejected.
pub proof fn lemma_first_failing_none(s: Seq<char>, from: int, ok: spec_fn(char) -> bool)
    requires
        forall|j: int| from <= j < s.len() ==> ok(s[j]),
    ensures
        first_failing(s, from, ok) is None,
{
}

/// The last index whose character `ok` rejects, if any.
pub open spec fn last_failing(s: Seq<char>, ok: spec_fn(char) -> bool) -> Option<int> {
    if exists|i: int| 0 <= i < s.len() && !ok(s[i]) {
        Some(
            choose|i: int|
                0 <= i < s.len() && !ok(s[i]) && forall|j: int| i < j < s.len() ==> ok(s[j]),
        )
    } else {
        None
    }
}

/// The last rejected character is at `i`.
pub proof fn lemma_last_failing(s: Seq<char>, ok: spec_fn(char) -> bool, i: int)
    requires
        0 <= i < s.len(),
        !ok(s[i]),
        forall|j: int| i < j < s.len() ==> ok(s[j]),
    ensures
        last_failing(s, ok) == Some(i),
{
    assert(exists|i: int| 0 <= i < s.len() && !ok(s[i]));
    let j = choose|j: int| 0 <= j < s.len() && !ok(s[j]) && forall|k: int| j < k < s.len() ==> ok(s[k]);
    assert(0 <= j < s.len() && !ok(s[j]) && forall|k: int| j < k < s.len() ==> ok(s[k]));
    if j < i {
        assert(ok(s[i]));
    } else if j > i {
        assert(ok(s[j]));
    }
}

/// Searches `v[from..to]` for the first `c`.
pub fn find_char(v: &[char], from: usize, to: usize, c: char) -> (r: Option<usize>)
    requires
        from <= to <= v@.len(),
    ensures
        match r {
            Some(i) => from <= i < to && v@[i as int] == c && forall|k: int|
                from <= k < i ==> v@[k] != c,
            None => forall|k: int| from <= k < to ==> v@[k] != c,
        },
{
    let mut i = from;
    while i < to
        invariant
            from <= i <= to <= v@.len(),
            forall|k: int| from <= k < i ==> v@[k] != c,
        decreases to - i,
    {
        if v[i] == c {
            return Some(i);
        }
        i += 1;
    }
    None
}

/// Where the first `c` of `s` is, given the place.
pub proof fn lemma_first_index(s: Seq<char>, c: char, i: int)
    requires
        0 <= i < s.len(),
        s[i] == c,
        forall|k: int| 0 <= k < i ==> s[k] != c,
    ensures
        first_index(s, c) == Some(i),
{
    assert(exists|i: int| 0 <= i < s.len() && s[i] == c);
    let j = choose|j: int| 0 <= j < s.len() && s[j] == c && forall|k: int| 0 <= k < j ==> s[k] != c;
    assert(0 <= j < s.len() && s[j] == c && forall|k: int| 0 <= k < j ==> s[k] != c);
    if j < i {
        assert(s[j] != c);
    } else if j > i {
        assert(s[i] != c);
    }
}

/// `s` holds no `c`.
pub proof fn lemma_first_index_none(s: Seq<char>, c: char)
    requires
        forall|k: int| 0 <= k < s.len() ==> s[k] != c,
    ensures
        first_index(s, c) is None,
{
}

/// The pieces of `s` between the occurrences of `c` (`str::split`): all of `s` when it
/// has none.
pub open spec fn split_on(s: Seq<char>, c: char) -> Seq<Seq<char>>
    decreases s.len(),
{
    match first_index(s, c) {
        None => seq![s],
        Some(k) => if 0 <= k < s.len() {
            seq![s.take(k)] + split_on(s.skip(k + 1), c)
        } else {
            seq![s]
        },
    }
}

/// Where the next `c` after `pos` is at `end` (or there is none and `end` is the
/// length), the pieces from `pos` are the one up to `end`, then those after it.
pub proof fn lemma_split_on_step(s: Seq<char>, c: char, pos: int, end: int)
    requires
        0 <= pos <= end <= s.len(),
        forall|k: int| pos <= k < end ==> s[k] != c,
        end < s.len() ==> s[end] == c,
    ensures
        split_on(s.skip(pos), c) == seq![s.subrange(pos, end)] + if end < s.len() {
            split_on(s.skip(end + 1), c)
        } else {
            Seq::<Seq<char>>::empty()
        },
{
    let rest = s.skip(pos);
    let k = end - pos;
    assert forall|j: int| 0 <= j < k implies rest[j] != c by {
        assert(rest[j] == s[pos + j]);
    }
    if end < s.len() {
        assert(rest[k] == c);
        lemma_first_index(rest, c, k);
        assert(rest.take(k) =~= s.subrange(pos, end));
        assert(rest.skip(k + 1) =~= s.skip(end + 1));
        assert(split_on(rest, c) == seq![rest.take(k)] + split_on(rest.skip(k + 1), c));
    } else {
        assert(rest.len() == k);
        lemma_first_index_none(rest, c);
        assert(rest =~= s.subrange(pos, end));
        assert(split_on(rest, c) == seq![rest]);
        assert(seq![rest] =~= seq![rest] + Seq::<Seq<char>>::empty());
    }
}

// ---------------------------------------------------------------------------
// Trimming
// ---------------------------------------------------------------------------

/// `s` without its leading whitespace (`str::trim_start`).
pub open spec fn trim_start(s: Seq<char>) -> Seq<char>
    decreases s.len(),
{
    if s.len() > 0 && is_whitespace(s[0]) {
        trim_start(s.skip(1))
    } else {
        s
    }
}

/// `s` without its trailing whitespace (`str::trim_end`).
pub open spec fn trim_end(s: Seq<char>) -> Seq<char>
    decreases s.len(),
{
    if s.len() > 0 && is_whitespace(s.last()) {
        trim_end(s.drop_last())
    } else {
        s
    }
}

/// `s` without leading and trailing whitespace (`str::trim`).
pub open spec fn trim(s: Seq<char>) -> Seq<char> {
    trim_end(trim_start(s))
}

/// The bounds of the trimmed part of `v[from..to]`.
pub fn trim_range(v: &[char], from: usize, to: usize) -> (r: (usize, usize))
    requires
        from <= to <= v@.len(),
    ensures
        from <= r.0 <= r.1 <= to,
        v@.subrange(r.0 as int, r.1 as int) == trim(v@.subrange(from as int, to as int)),
{
    let mut a = from;
    while a < to && whitespace(v[a])
        invariant
            from <= a <= to <= v@.len(),
            trim_start(v@.subrange(from as int, to as int)) == trim_start(
                v@.subrange(a as int, to as int),
            ),
        decreases to - a,
    {
        proof {
            assert(v@.subrange(a as int, to as int).skip(1) =~= v@.subrange(a + 1, to as int));
        }
        a += 1;
    }
    proof {
        if a < to {
            assert(!is_whitespace(v@.subrange(a as int, to as int)[0]));
        }
    }
    let mut b = to;
    while b > a && whitespace(v[b - 1])
        invariant
            from <= a <= b <= to <= v@.len(),
            trim(v@.subrange(from as int, to as int)) == trim_end(v@.subrange(a as int, b as int)),
        decreases b - a,
    {
        proof {
            assert(v@.subrange(a as int, b as int).drop_last() =~= v@.subrange(a as int, b - 1));
        }
        b -= 1;
    }
    (a, b)
}

// ---------------------------------------------------------------------------
// Numbers
// ---------------------------------------------------------------------------

/// The ASCII digit for `d < 10`.
pub open spec fn digit_char(d: nat) -> char {
    (48 + d) as char
}

/// The decimal representation of `n`, without leading zeros.
pub open spec fn decimal(n: nat) -> Seq<char>
    decreases n,
{
    if n < 10 {
        seq![digit_char(n)]
    } else {
        decimal(n / 10).push(digit_char(n % 10))
    }
}

/// The decimal representation of a signed number.
pub open spec fn signed_decimal(n: int) -> Seq<char> {
    if n < 0 {
        seq!['-'] + decimal((-n) as nat)
    } else {
        decimal(n as nat)
    }
}

/// Appends the decimal representation of `n` to `s`.
pub fn push_u64(s: &mut String, n: u64)
    ensures
        final(s)@ == old(s)@ + decimal(n as nat),
    decreases n,
{
    if n >= 10 {
        push_u64(s, n / 10);
    }
    let d = (n % 10) as u8;
    let c = (48u8 + d) as char;
    s.push(c);
    proof {
        if n >= 10 {
            assert(decimal(n as nat) == decimal((n / 10) as nat).push(digit_char((n % 10) as nat)));
        }
    }
}

/// Appends the decimal representation of a signed number to `s`.
pub fn push_i64(s: &mut String, n: i64)
    ensures
        final(s)@ == old(s)@ + signed_decimal(n as int),
{
    if n < 0 {
        s.push('-');
        let m: u64 = if n == i64::MIN {
            9223372036854775808u64
        } else {
            (-n) as u64
        };
        push_u64(s, m);
        proof {
            assert(old(s)@.push('-') + decimal(m as nat) =~= old(s)@ + (seq!['-'] + decimal(
                m as nat,
            )));
        }
    } else {
        push_u64(s, n as u64);
    }
}

/// The `String` holding the decimal representation of `n`.
pub fn u64_to_string(n: u64) -> (r: String)
    ensures
        r@ == decimal(n as nat),
{
    let mut s = String::new();
    push_u64(&mut s, n);
    proof {
        assert(s@ =~= decimal(n as nat));
    }
    s
}

/// The value of a string of decimal digits.
pub open spec fn digits_value(s: Seq<char>) -> nat
    decreases s.len(),
{
    if s.len() == 0 {
        0
    } else {
        digits_value(s.drop_last()) * 10 + ((s.last() as nat) - 48) as nat
    }
}

/// Whether `s` is a non-empty run of ASCII digits.
pub open spec fn all_digits(s: Seq<char>) -> bool {
    s.len() > 0 && forall|i: int| 0 <= i < s.len() ==> #[trigger] is_ascii_digit(s[i])
}

/// The digits after an optional leading `+`.
pub open spec fn unsigned_body(s: Seq<char>) -> Seq<char> {
    if s.len() > 0 && s[0] == '+' {
        s.skip(1)
    } else {
        s
    }
}

/// What `str::parse::<u64>` returns: `Some` for an optional `+` followed by at least one
/// ASCII digit whose value fits in 64 bits.
pub open spec fn parse_u64_spec(s: Seq<char>) -> Option<u64> {
    let body = unsigned_body(s);
    if all_digits(body) && digits_value(body) <= u64::MAX {
        Some(digits_value(body) as u64)
    } else {
        None
    }
}

/// What `str::parse::<i32>` returns: an optional sign followed by at least one ASCII
/// digit, with the value in range.
pub open spec fn parse_i32_spec(s: Seq<char>) -> Option<i32> {
    if s.len() > 0 && s[0] == '-' {
        let body = s.skip(1);
        if all_digits(body) && digits_value(body) <= 2147483648 {
            Some((-digits_value(body)) as i32)
        } else {
            None
        }
    } else {
        let body = unsigned_body(s);
        if all_digits(body) && digits_value(body) <= 2147483647 {
            Some(digits_value(body) as i32)
        } else {
            None
        }
    }
}

/// How many ASCII digits `s` starts with.
pub open spec fn digit_prefix_len(s: Seq<char>) -> nat
    decreases s.len(),
{
    if s.len() > 0 && is_ascii_digit(s[0]) {
        1 + digit_prefix_len(s.skip(1))
    } else {
        0
    }
}

/// The message of the error `str::parse::<u64>` gives for `text`, empty when it parses.
/// std reads an optional `+` and then the digits from left to right, and stops at the
/// first of: an empty text (`IntErrorKind::Empty`), a lone sign or a character that is
/// no digit (`InvalidDigit`), a value past `u64::MAX` (`PosOverflow`); each kind has one
/// fixed message.
pub open spec fn u64_parse_message(text: Seq<char>) -> Seq<char> {
    let body = unsigned_body(text);
    let run = body.take(digit_prefix_len(body) as int);
    if text.len() == 0 {
        "cannot parse integer from empty string"@
    } else if text == seq!['+'] {
        "invalid digit found in string"@
    } else if digits_value(run) > u64::MAX {
        "number too large to fit in target type"@
    } else if run.len() == body.len() {
        Seq::empty()
    } else {
        "invalid digit found in string"@
    }
}

proof fn lemma_digit_prefix(s: Seq<char>)
    ensures
        digit_prefix_len(s) <= s.len(),
        forall|i: int| 0 <= i < digit_prefix_len(s) ==> #[trigger] is_ascii_digit(s[i]),
        digit_prefix_len(s) < s.len() ==> !is_ascii_digit(s[digit_prefix_len(s) as int]),
    decreases s.len(),
{
    if s.len() > 0 && is_ascii_digit(s[0]) {
        lemma_digit_prefix(s.skip(1));
        assert forall|i: int| 0 <= i < digit_prefix_len(s) implies #[trigger] is_ascii_digit(s[i]) by {
            if i > 0 {
                assert(s.skip(1)[i - 1] == s[i]);
            }
        }
        if digit_prefix_len(s) < s.len() {
            assert(s.skip(1)[digit_prefix_len(s.skip(1)) as int] == s[digit_prefix_len(s) as int]);
        }
    }
}

/// The message is empty exactly when the text parses.
pub proof fn lemma_u64_parse_message_empty(text: Seq<char>)
    ensures
        (u64_parse_message(text).len() == 0) == (parse_u64_spec(text) is Some),
{
    reveal_strlit("cannot parse integer from empty string");
    reveal_strlit("invalid digit found in string");
    reveal_strlit("number too large to fit in target type");
    let body = unsigned_body(text);
    lemma_digit_prefix(body);
    let n = digit_prefix_len(body);
    if all_digits(body) {
        if n < body.len() {
            assert(is_ascii_digit(body[n as int]));
        }
        assert(body.take(n as int) =~= body);
    } else if text.len() > 0 && text != seq!['+'] && n == body.len() {
        assert(body.len() > 0) by {
            if text[0] == '+' {
                assert(text.len() != 1) by {
                    if text.len() == 1 {
                        assert(text =~= seq!['+']);
                    }
                }
            }
        }
        assert(all_digits(body));
    }
}

/// The message of the error that `str::parse::<u64>` (std) gives for `text`, or an
/// empty string when it parses: `u64_parse_message` of the text.
#[verifier::external_body]
pub(crate) fn u64_parse_error(text: &str) -> (r: String)
    ensures
        r@ == u64_parse_message(text@),
{
    match text.parse::<u64>() {
        Ok(_) => String::new(),
        Err(e) => e.to_string(),
    }
}

/// Parses the digits `v[from..to]` (no sign) into a number no larger than `limit`.
fn parse_digits(v: &[char], from: usize, to: usize, limit: u64) -> (r: Option<u64>)
    requires
        from <= to <= v@.len(),
        limit >= 9,
    ensures
        ({
            let body = v@.subrange(from as int, to as int);
            match r {
                Some(n) => all_digits(body) && n == digits_value(body) && n <= limit,
                None => !(all_digits(body) && digits_value(body) <= limit),
            }
        }),
{
    if from == to {
        return None;
    }
    let mut acc: u64 = 0;
    let mut i = from;
    while i < to
        invariant
            from < to <= v@.len(),
            from <= i <= to,
            forall|k: int| from <= k < i ==> is_ascii_digit(#[trigger] v@[k]),
            acc == digits_value(v@.subrange(from as int, i as int)),
            acc <= limit,
            limit >= 9,
        decreases to - i,
    {
        let c = v[i];
        proof {
            assert(v@.subrange(from as int, i + 1).drop_last() =~= v@.subrange(from as int, i as int));
        }
        if !ascii_digit(c) {
            proof {
                assert(!is_ascii_digit(v@.subrange(from as int, to as int)[i - from]));
            }
            return None;
        }
        let d = (c as u32 - 48) as u64;
        assert(digits_value(v@.subrange(from as int, i + 1)) == acc * 10 + d);
        if acc > (limit - d) / 10 {
            proof {
                assert(acc * 10 + d > limit) by (nonlinear_arith)
                    requires
                        acc > (limit - d) / 10,
                        d <= 9,
                        limit >= 9,
                ;
                let body = v@.subrange(from as int, to as int);
                if all_digits(body) {
                    lemma_digits_value_grows(body, (i - from + 1) as int);
                    assert(body.take(i - from + 1) =~= v@.subrange(from as int, i + 1));
                }
            }
            return None;
        }
        assert(acc * 10 + d <= limit) by (nonlinear_arith)
            requires
                acc <= (limit - d) / 10,
                d <= 9,
                limit >= 9,
        ;
        acc = acc * 10 + d;
        i += 1;
    }
    proof {
        assert forall|k: int| 0 <= k < to - from implies #[trigger] is_ascii_digit(
            v@.subrange(from as int, to as int)[k],
        ) by {
            assert(v@.subrange(from as int, to as int)[k] == v@[from + k]);
        }
    }
    Some(acc)
}

proof fn lemma_digits_value_grows(s: Seq<char>, k: int)
    requires
        0 <= k <= s.len(),
        all_digits(s),
    ensures
        digits_value(s.take(k)) <= digits_value(s),
    decreases s.len() - k,
{
    if k < s.len() {
        lemma_digits_value_grows(s, k + 1);
        assert(s.take(k + 1).drop_last() =~= s.take(k));
    } else {
        assert(s.take(k) =~= s);
    }
}

/// `str::parse::<u64>` on `v[from..to]`.
pub fn parse_u64(v: &[char], from: usize, to: usize) -> (r: Option<u64>)
    requires
        from <= to <= v@.len(),
    ensures
        r == parse_u64_spec(v@.subrange(from as int, to as int)),
{
    let ghost s = v@.subrange(from as int, to as int);
    let start = if from < to && v[from] == '+' {
        from + 1
    } else {
        from
    };
    proof {
        assert(unsigned_body(s) =~= v@.subrange(start as int, to as int));
    }
    parse_digits(v, start, to, u64::MAX)
}

/// `str::parse::<i32>` on `v[from..to]`.
pub fn parse_i32(v: &[char], from: usize, to: usize) -> (r: Option<i32>)
    requires
        from <= to <= v@.len(),
    ensures
        r == parse_i32_spec(v@.subrange(from as int, to as int)),
{
    let ghost s = v@.subrange(from as int, to as int);
    if from < to && v[from] == '-' {
        proof {
            assert(s.skip(1) =~= v@.subrange(from + 1, to as int));
        }
        match parse_digits(v, from + 1, to, 2147483648) {
            Some(n) => Some((0i64 - n as i64) as i32),
            None => None,
        }
    } else {
        let start = if from < to && v[from] == '+' {
            from + 1
        } else {
            from
        };
        proof {
            assert(unsigned_body(s) =~= v@.subrange(start as int, to as int));
        }
        match parse_digits(v, start, to, 2147483647) {
            Some(n) => Some(n as i32),
            None => None,
        }
    }
}

} // verus!
