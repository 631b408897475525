use vstd::prelude::*;
use vstd::string::StringSliceAdditionalSpecFns;
use vstd::utf8::encode_utf8;
use crate::app_error::AppError;
use crate::text::push_str;

verus! {

/// The byte `*`.
pub open spec fn star() -> u8 {
    42u8
}

/// Glob matching on bytes: `*` matches any run of bytes (also `/` and the empty run);
/// every other byte matches itself.
pub open spec fn glob_matches(input: Seq<u8>, pattern: Seq<u8>) -> bool
    decreases input.len() + pattern.len(),
{
    if pattern.len() == 0 {
        input.len() == 0
    } else if pattern[0] == star() {
        glob_matches(input, pattern.skip(1)) || (input.len() > 0 && glob_matches(
            input.skip(1),
            pattern,
        ))
    } else {
        input.len() > 0 && input[0] == pattern[0] && glob_matches(input.skip(1), pattern.skip(1))
    }
}

/// No `*` in `s`.
pub open spec fn star_free(s: Seq<u8>) -> bool {
    forall|k: int| 0 <= k < s.len() ==> s[k] != star()
}

/// Only `*` in `s`.
pub open spec fn all_stars(s: Seq<u8>) -> bool {
    forall|k: int| 0 <= k < s.len() ==> s[k] == star()
}

proof fn lemma_glob_literal_prefix(s: Seq<u8>, l: Seq<u8>, r: Seq<u8>)
    requires
        star_free(l),
    ensures
        glob_matches(s, l + r) == (s.len() >= l.len() && s.take(l.len() as int) == l
            && glob_matches(s.skip(l.len() as int), r)),
    decreases l.len(),
{
    if l.len() == 0 {
        assert(l + r =~= r);
        assert(s.take(0) =~= l);
        assert(s.skip(0) =~= s);
    } else {
        let lr = l + r;
        assert(lr[0] == l[0]);
        assert(lr.skip(1) =~= l.skip(1) + r);
        if s.len() > 0 {
            lemma_glob_literal_prefix(s.skip(1), l.skip(1), r);
            if s.len() >= l.len() {
                assert(s.skip(1).skip(l.len() - 1) =~= s.skip(l.len() as int));
                if s.take(l.len() as int) == l {
                    assert(s.skip(1).take(l.len() - 1) =~= l.skip(1));
                } else {
                    if s[0] == l[0] {
                        if s.skip(1).take(l.len() - 1) == l.skip(1) {
                            assert forall|k: int| 0 <= k < l.len() implies s.take(
                                l.len() as int,
                            )[k] == l[k] by {
                                if k > 0 {
                                    assert(s.skip(1).take(l.len() - 1)[k - 1] == l.skip(1)[k - 1]);
                                }
                            }
                            assert(s.take(l.len() as int) =~= l);
                        }
                    }
                }
            }
        }
    }
}

proof fn lemma_glob_star(s: Seq<u8>, r: Seq<u8>)
    ensures
        glob_matches(s, seq![star()] + r) == exists|j: int|
            0 <= j <= s.len() && #[trigger] glob_matches(s.skip(j), r),
    decreases s.len(),
{
    let p = seq![star()] + r;
    assert(p.skip(1) =~= r);
    assert(s.skip(0) =~= s);
    if s.len() == 0 {
        if glob_matches(s, p) {
            assert(glob_matches(s.skip(0), r));
        }
    } else {
        lemma_glob_star(s.skip(1), r);
        if glob_matches(s, p) {
            if glob_matches(s, r) {
                assert(glob_matches(s.skip(0), r));
            } else {
                assert(glob_matches(s.skip(1), p));
                let j = choose|j: int|
                    0 <= j <= s.skip(1).len() && #[trigger] glob_matches(s.skip(1).skip(j), r);
                assert(s.skip(1).skip(j) =~= s.skip(j + 1));
                assert(glob_matches(s.skip(j + 1), r));
            }
        }
        if exists|j: int| 0 <= j <= s.len() && #[trigger] glob_matches(s.skip(j), r) {
            let j = choose|j: int| 0 <= j <= s.len() && #[trigger] glob_matches(s.skip(j), r);
            if j > 0 {
                assert(s.skip(1).skip(j - 1) =~= s.skip(j));
                assert(glob_matches(s.skip(1).skip(j - 1), r));
                assert(glob_matches(s.skip(1), p));
            }
        }
    }
}

proof fn lemma_glob_empty_input(p: Seq<u8>)
    ensures
        glob_matches(Seq::empty(), p) == all_stars(p),
    decreases p.len(),
{
    if p.len() > 0 {
        lemma_glob_empty_input(p.skip(1));
        if all_stars(p) {
            assert(all_stars(p.skip(1)));
        }
        if p[0] == star() && all_stars(p.skip(1)) {
            assert forall|k: int| 0 <= k < p.len() implies p[k] == star() by {
                if k > 0 {
                    assert(p[k] == p.skip(1)[k - 1]);
                }
            }
        }
    }
}

/// A lone `*` matches every input.
pub proof fn lemma_lone_star_matches_all(input: Seq<u8>)
    ensures
        glob_matches(input, seq![star()]),
    decreases input.len(),
{
    let p = seq![star()];
    assert(p.skip(1) =~= Seq::<u8>::empty());
    if input.len() > 0 {
        lemma_lone_star_matches_all(input.skip(1));
        assert(glob_matches(input.skip(1), p));
    } else {
        assert(glob_matches(input, p.skip(1)));
    }
}

/// Every text matches itself as a pattern (a `*` in it also matches the byte `*`).
pub proof fn lemma_glob_matches_itself(text: Seq<u8>)
    ensures
        glob_matches(text, text),
    decreases text.len(),
{
    if text.len() > 0 {
        lemma_glob_matches_itself(text.skip(1));
        if text[0] == star() {
            assert(glob_matches(text.skip(1), text));
        }
    }
}

/// A pattern without `*` matches exactly the input equal to it.
pub proof fn lemma_star_free_matches_only_itself(input: Seq<u8>, pattern: Seq<u8>)
    requires
        star_free(pattern),
    ensures
        glob_matches(input, pattern) <==> input == pattern,
{
    lemma_glob_literal_prefix(input, pattern, Seq::empty());
    assert(pattern + Seq::<u8>::empty() =~= pattern);
    if input == pattern {
        assert(input.take(pattern.len() as int) =~= pattern);
        assert(input.skip(pattern.len() as int) =~= Seq::<u8>::empty());
    }
    if glob_matches(input, pattern) {
        assert(input.skip(pattern.len() as int).len() == 0);
        assert(input =~= input.take(pattern.len() as int));
    }
}

/// The state of the matcher after reading `input[..i]` against `pattern[..p]`:
/// without a star seen, both prefixes are equal and star-free; with the last star at
/// `sp`, whose match began at `si`, the text since then equals the pattern since the
/// star, and the whole match is decided by the suffixes from `si` on.
#[verifier::opaque]
pub open spec fn matcher_state(
    input: Seq<u8>,
    pattern: Seq<u8>,
    i: int,
    p: int,
    has_star: bool,
    sp: int,
    si: int,
) -> bool {
    &&& 0 <= si <= i <= input.len()
    &&& 0 <= p <= pattern.len()
    &&& !has_star ==> {
        &&& si == 0
        &&& i == p
        &&& star_free(pattern.take(p))
        &&& input.take(i) == pattern.take(p)
        &&& glob_matches(input, pattern) == glob_matches(input.skip(i), pattern.skip(p))
    }
    &&& has_star ==> {
        &&& 0 <= sp < p
        &&& pattern[sp] == star()
        &&& star_free(pattern.subrange(sp + 1, p))
        &&& input.subrange(si, i) == pattern.subrange(sp + 1, p)
        &&& glob_matches(input, pattern) == exists|j: int|
            si <= j <= input.len() && #[trigger] glob_matches(input.skip(j), pattern.skip(sp + 1))
    }
}

proof fn lemma_matcher_start(input: Seq<u8>, pattern: Seq<u8>, sp: int)
    ensures
        matcher_state(input, pattern, 0, 0, false, sp, 0),
{
    reveal(matcher_state);
    assert(input.skip(0) =~= input);
    assert(pattern.skip(0) =~= pattern);
    assert(input.take(0) =~= pattern.take(0));
}

proof fn lemma_matcher_star(
    input: Seq<u8>,
    pattern: Seq<u8>,
    i: int,
    p: int,
    has_star: bool,
    sp: int,
    si: int,
)
    requires
        matcher_state(input, pattern, i, p, has_star, sp, si),
        i < input.len(),
        p < pattern.len(),
        pattern[p] == star(),
    ensures
        matcher_state(input, pattern, i, p + 1, true, p, i),
{
    reveal(matcher_state);
    let n = input.len();
    let r = pattern.skip(p + 1);
    assert(pattern.skip(p) =~= seq![star()] + r);
    lemma_glob_star(input.skip(i), r);
    assert forall|k: int| 0 <= k <= n - i implies #[trigger] input.skip(i).skip(k) == input.skip(
        i + k,
    ) by {
        assert(input.skip(i).skip(k) =~= input.skip(i + k));
    }
    if !has_star {
        if glob_matches(input, pattern) {
            let k = choose|k: int|
                0 <= k <= input.skip(i).len() && #[trigger] glob_matches(input.skip(i).skip(k), r);
            assert(glob_matches(input.skip(i + k), r));
        }
        if exists|j: int| i <= j <= n && #[trigger] glob_matches(input.skip(j), r) {
            let j = choose|j: int| i <= j <= n && #[trigger] glob_matches(input.skip(j), r);
            assert(glob_matches(input.skip(i).skip(j - i), r));
        }
    } else {
        let l = pattern.subrange(sp + 1, p);
        let tail = pattern.skip(sp + 1);
        assert(tail =~= l + (seq![star()] + r));
        if glob_matches(input, pattern) {
            let j = choose|j: int| si <= j <= n && #[trigger] glob_matches(input.skip(j), tail);
            lemma_glob_literal_prefix(input.skip(j), l, seq![star()] + r);
            let rest = input.skip(j).skip(l.len() as int);
            assert(rest =~= input.skip(j + l.len()));
            lemma_glob_star(rest, r);
            let k = choose|k: int| 0 <= k <= rest.len() && #[trigger] glob_matches(rest.skip(k), r);
            assert(rest.skip(k) =~= input.skip(j + l.len() + k));
            assert(glob_matches(input.skip(j + l.len() + k), r));
        }
        if exists|j: int| i <= j <= n && #[trigger] glob_matches(input.skip(j), r) {
            let j = choose|j: int| i <= j <= n && #[trigger] glob_matches(input.skip(j), r);
            assert(glob_matches(input.skip(i).skip(j - i), r));
            assert(glob_matches(input.skip(i), seq![star()] + r));
            lemma_glob_literal_prefix(input.skip(si), l, seq![star()] + r);
            assert(input.skip(si).take(l.len() as int) =~= l);
            assert(input.skip(si).skip(l.len() as int) =~= input.skip(i));
            assert(glob_matches(input.skip(si), tail));
        }
    }
    assert(pattern.subrange(p + 1, p + 1) =~= Seq::<u8>::empty());
    assert(input.subrange(i, i) =~= Seq::<u8>::empty());
}

proof fn lemma_matcher_advance(
    input: Seq<u8>,
    pattern: Seq<u8>,
    i: int,
    p: int,
    has_star: bool,
    sp: int,
    si: int,
)
    requires
        matcher_state(input, pattern, i, p, has_star, sp, si),
        i < input.len(),
        p < pattern.len(),
        pattern[p] != star(),
        pattern[p] == input[i],
    ensures
        matcher_state(input, pattern, i + 1, p + 1, has_star, sp, si),
{
    reveal(matcher_state);
    if !has_star {
        let a = input.skip(i);
        let b = pattern.skip(p);
        assert(a.skip(1) =~= input.skip(i + 1));
        assert(b.skip(1) =~= pattern.skip(p + 1));
        assert(input.take(i + 1) =~= input.take(i).push(input[i]));
        assert(pattern.take(p + 1) =~= pattern.take(p).push(pattern[p]));
    } else {
        assert(input.subrange(si, i + 1) =~= input.subrange(si, i).push(input[i]));
        assert(pattern.subrange(sp + 1, p + 1) =~= pattern.subrange(sp + 1, p).push(pattern[p]));
    }
}

proof fn lemma_matcher_backtrack(
    input: Seq<u8>,
    pattern: Seq<u8>,
    i: int,
    p: int,
    sp: int,
    si: int,
)
    requires
        matcher_state(input, pattern, i, p, true, sp, si),
        i < input.len(),
        !(p < pattern.len() && (pattern[p] == star() || pattern[p] == input[i])),
    ensures
        matcher_state(input, pattern, si + 1, sp + 1, true, sp, si + 1),
{
    reveal(matcher_state);
    let l = pattern.subrange(sp + 1, p);
    let tail = pattern.skip(sp + 1);
    assert(tail =~= l + pattern.skip(p));
    lemma_glob_literal_prefix(input.skip(si), l, pattern.skip(p));
    assert(input.skip(si).take(l.len() as int) =~= l);
    assert(input.skip(si).skip(l.len() as int) =~= input.skip(i));
    let a = input.skip(i);
    let b = pattern.skip(p);
    assert(a[0] == input[i]);
    if p < pattern.len() {
        assert(b[0] == pattern[p]);
    }
    assert(!glob_matches(a, b));
    assert(!glob_matches(input.skip(si), tail));
    assert(pattern.subrange(sp + 1, sp + 1) =~= Seq::<u8>::empty());
    assert(input.subrange(si + 1, si + 1) =~= Seq::<u8>::empty());
}

proof fn lemma_matcher_fail(input: Seq<u8>, pattern: Seq<u8>, i: int, p: int, sp: int, si: int)
    requires
        matcher_state(input, pattern, i, p, false, sp, si),
        i < input.len(),
        !(p < pattern.len() && (pattern[p] == star() || pattern[p] == input[i])),
    ensures
        !glob_matches(input, pattern),
{
    reveal(matcher_state);
    let a = input.skip(i);
    let b = pattern.skip(p);
    assert(a[0] == input[i]);
    if p < pattern.len() {
        assert(b[0] == pattern[p]);
    }
    assert(!glob_matches(a, b));
}

proof fn lemma_matcher_end(
    input: Seq<u8>,
    pattern: Seq<u8>,
    p: int,
    has_star: bool,
    sp: int,
    si: int,
)
    requires
        matcher_state(input, pattern, input.len() as int, p, has_star, sp, si),
    ensures
        glob_matches(input, pattern) == all_stars(pattern.skip(p)),
{
    reveal(matcher_state);
    let n = input.len() as int;
    let rest = pattern.skip(p);
    lemma_glob_empty_input(rest);
    assert(input.skip(n) =~= Seq::<u8>::empty());
    if has_star {
        let l = pattern.subrange(sp + 1, p);
        let tail = pattern.skip(sp + 1);
        assert(tail =~= l + rest);
        assert forall|j: int| si <= j <= n implies #[trigger] glob_matches(input.skip(j), tail) == (j
            == si && all_stars(rest)) by {
            lemma_glob_literal_prefix(input.skip(j), l, rest);
            if j == si {
                assert(input.skip(j).take(l.len() as int) =~= l);
                assert(input.skip(j).skip(l.len() as int) =~= Seq::<u8>::empty());
            }
        }
        if all_stars(rest) {
            assert(glob_matches(input.skip(si), tail));
        }
    }
}

/// Simple glob matching for flake refs (zero allocation), on the UTF-8 bytes.
pub fn matches_glob(input: &str, pattern: &str) -> (r: bool)
    ensures
        r == glob_matches(input.spec_bytes(), pattern.spec_bytes()),
{
    let ib = input.as_bytes();
    let pb = pattern.as_bytes();
    let ghost big_i = ib@;
    let ghost big_p = pb@;
    let n = ib.len();
    let m = pb.len();
    let mut i: usize = 0;
    let mut p: usize = 0;
    let mut star_p: usize = usize::MAX;
    let mut star_i: usize = 0;
    proof {
        lemma_matcher_start(big_i, big_p, star_p as int);
    }
    while i < n
        invariant
            n == big_i.len(),
            m == big_p.len(),
            big_i == ib@,
            big_p == pb@,
            big_i == input.spec_bytes(),
            big_p == pattern.spec_bytes(),
            star_i <= i <= n,
            p <= m,
            star_p != usize::MAX ==> star_p < p,
            matcher_state(big_i, big_p, i as int, p as int, star_p != usize::MAX, star_p as int, star_i as int),
        decreases n - star_i, n - i, m - p,
    {
        if p < m && pb[p] == 42u8 {
            proof {
                lemma_matcher_star(big_i, big_p, i as int, p as int, star_p != usize::MAX, star_p as int, star_i as int);
            }
            star_p = p;
            star_i = i;
            p += 1;
        } else if p < m && pb[p] == ib[i] {
            proof {
                lemma_matcher_advance(big_i, big_p, i as int, p as int, star_p != usize::MAX, star_p as int, star_i as int);
            }
            i += 1;
            p += 1;
        } else if star_p != usize::MAX {
            proof {
                lemma_matcher_backtrack(big_i, big_p, i as int, p as int, star_p as int, star_i as int);
            }
            star_i += 1;
            i = star_i;
            p = star_p + 1;
        } else {
            proof {
                lemma_matcher_fail(big_i, big_p, i as int, p as int, star_p as int, star_i as int);
            }
            return false;
        }
    }
    proof {
        lemma_matcher_end(big_i, big_p, p as int, star_p != usize::MAX, star_p as int, star_i as int);
    }
    let ghost p_end = p;
    while p < m && pb[p] == 42u8
        invariant
            p_end <= p <= m,
            m == big_p.len(),
            big_p == pb@,
            forall|k: int| p_end <= k < p ==> big_p[k] == star(),
        decreases m - p,
    {
        p += 1;
    }
    proof {
        let rest = big_p.skip(p_end as int);
        if p == m {
            assert(all_stars(rest));
        } else {
            assert(rest[p - p_end] != star());
        }
    }
    p == m
}

/// Validate a flake reference against the allowlist: it must match at least one
/// pattern; an empty allowlist allows nothing.
pub fn validate_flake_ref(flake_ref: &str, allowlist: &[String]) -> (r: Result<(), AppError>)
    ensures
        r is Ok <==> exists|k: int|
            0 <= k < allowlist@.len() && glob_matches(
                flake_ref.spec_bytes(),
                encode_utf8(#[trigger] allowlist@[k]@),
            ),
        r matches Err(e) ==> e matches AppError::FlakeNotAllowed(m) && m@ == if allowlist@.len()
            == 0 {
            flake_ref@ + ": no flake origins are allowed (empty allowlist)"@
        } else {
            flake_ref@ + " not in allowlist"@
        },
{
    if allowlist.len() == 0 {
        let mut msg = String::new();
        push_str(&mut msg, flake_ref);
        push_str(&mut msg, ": no flake origins are allowed (empty allowlist)");
        return Err(AppError::FlakeNotAllowed(msg));
    }
    let mut k: usize = 0;
    while k < allowlist.len()
        invariant
            k <= allowlist@.len(),
            forall|t: int|
                0 <= t < k ==> !glob_matches(
                    flake_ref.spec_bytes(),
                    encode_utf8(#[trigger] allowlist@[t]@),
                ),
        decreases allowlist@.len() - k,
    {
        if matches_glob(flake_ref, allowlist[k].as_str()) {
            return Ok(());
        }
        k += 1;
    }
    let mut msg = String::new();
    push_str(&mut msg, flake_ref);
    push_str(&mut msg, " not in allowlist");
    Err(AppError::FlakeNotAllowed(msg))
}

} // verus!
