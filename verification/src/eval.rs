use vstd::prelude::*;
use vstd::string::StringSliceAdditionalSpecFns;
use vstd::utf8::encode_utf8;
use crate::error::NiphasError;
use crate::text::{
    ascii_alnum, ascii_alpha, ascii_hex, chars_of, decimal, find_char, first_failing,
    first_index, is_ascii_alnum, is_ascii_alpha, is_ascii_hex, lemma_first_failing,
    lemma_first_failing_none, lemma_first_index, lemma_first_index_none, push_range, push_str,
    push_u64,
};

verus! {

/// Request body for the eval webhook (POST /evaluate).
#[derive(Debug, Clone)]
pub struct EvalRequest {
    pub flake_ref: String,
    pub attribute: String,
    pub revision: Option<String>,
    pub binary_cache: Option<String>,
}

/// Successful response from the eval webhook.
#[derive(Debug, Clone, PartialEq)]
pub struct EvalResponse {
    pub store_path: String,
    pub name: String,
    pub main_program: Option<String>,
    pub closure_paths: Vec<String>,
}

/// `<store_path>/bin/<main_program or name>`.
pub open spec fn resolved_command_text(r: EvalResponse) -> Seq<char> {
    r.store_path@ + "/bin/"@ + match r.main_program {
        Some(p) => p@,
        None => r.name@,
    }
}

impl EvalResponse {
    /// Compute the resolved command path.
    pub fn resolved_command(&self) -> (r: String)
        ensures
            r@ == resolved_command_text(*self),
    {
        let mut r = String::new();
        push_str(&mut r, self.store_path.as_str());
        push_str(&mut r, "/bin/");
        match &self.main_program {
            Some(p) => push_str(&mut r, p.as_str()),
            None => push_str(&mut r, self.name.as_str()),
        }
        r
    }
}

/// A character allowed in a scheme after its first letter.
pub open spec fn scheme_char(c: char) -> bool {
    is_ascii_alnum(c) || c == '+' || c == '-' || c == '.'
}

/// A character allowed in the path of a flake reference.
pub open spec fn path_char(c: char) -> bool {
    is_ascii_alnum(c) || c == '/' || c == '_' || c == '-' || c == '.' || c == '@' || c == ':' || c
        == '#' || c == '+' || c == '?' || c == '=' || c == '&' || c == '~'
}

/// `scheme:path` where the scheme is `[a-zA-Z][a-zA-Z0-9+\-.]*` (up to the first `:`) and the
/// path is a non-empty run of `[a-zA-Z0-9/_\-.@:#+?=&~]`.
pub open spec fn flake_ref_valid(s: Seq<char>) -> bool {
    match first_index(s, ':') {
        None => false,
        Some(k) => {
            let scheme = s.take(k);
            let path = s.skip(k + 1);
            &&& scheme.len() > 0
            &&& is_ascii_alpha(scheme[0])
            &&& forall|i: int| 1 <= i < scheme.len() ==> #[trigger] scheme_char(scheme[i])
            &&& path.len() > 0
            &&& forall|i: int| 0 <= i < path.len() ==> #[trigger] path_char(path[i])
        },
    }
}

/// An accepted flake reference holds only characters of the path alphabet (the scheme's
/// and the `:` among them): so no quote, backslash, `$`, `;`, parenthesis, backtick,
/// whitespace or non-ASCII character, nothing a Nix string or a shell could take apart.
pub proof fn lemma_flake_ref_safe(s: Seq<char>)
    requires
        flake_ref_valid(s),
    ensures
        forall|i: int| 0 <= i < s.len() ==> #[trigger] path_char(s[i]),
        forall|i: int|
            0 <= i < s.len() ==> {
                let c = #[trigger] s[i];
                &&& c <= '\u{7f}'
                &&& c != '"' && c != '\\' && c != '$' && c != ';' && c != '(' && c != ')' && c != '`'
                &&& c != ' ' && c != '\t' && c != '\n' && c != '\r'
            },
{
    let k = first_index(s, ':').unwrap();
    crate::text::lemma_first_index_some(s, ':');
    assert forall|i: int| 0 <= i < s.len() implies #[trigger] path_char(s[i]) by {
        if i < k {
            let scheme = s.take(k);
            assert(scheme[i] == s[i]);
            if i > 0 {
                assert(scheme_char(scheme[i]));
            } else {
                assert(is_ascii_alpha(scheme[0]));
            }
        } else if i > k {
            assert(s.skip(k + 1)[i - k - 1] == s[i]);
            assert(path_char(s.skip(k + 1)[i - k - 1]));
        } else {
            assert(s[i] == ':');
        }
    }
    assert forall|i: int| 0 <= i < s.len() implies {
        let c = #[trigger] s[i];
        &&& c <= '\u{7f}'
        &&& c != '"' && c != '\\' && c != '$' && c != ';' && c != '(' && c != ')' && c != '`'
        &&& c != ' ' && c != '\t' && c != '\n' && c != '\r'
    } by {
        assert(path_char(s[i]));
    }
}

/// Character `i` of an attribute path is allowed where it stands: a segment starts with
/// a letter or `_`, and goes on with letters, digits, `_`, `-`, or the `.` that ends it.
pub open spec fn attribute_char_ok(s: Seq<char>, i: int) -> bool {
    if i == 0 || s[i - 1] == '.' {
        is_ascii_alpha(s[i]) || s[i] == '_'
    } else {
        s[i] == '.' || is_ascii_alnum(s[i]) || s[i] == '_' || s[i] == '-'
    }
}

/// Dot-separated identifiers `[a-zA-Z_][a-zA-Z0-9_\-]*`: every segment starts with a
/// letter or `_`, the rest are letters, digits, `_` or `-`, and no segment is empty.
pub open spec fn attribute_valid(s: Seq<char>) -> bool {
    &&& s.len() > 0
    &&& s.last() != '.'
    &&& forall|i: int| 0 <= i < s.len() ==> #[trigger] attribute_char_ok(s, i)
}

/// A hex string of 6 to 40 bytes.
pub open spec fn revision_valid(s: Seq<char>) -> bool {
    &&& 6 <= encode_utf8(s).len() <= 40
    &&& forall|i: int| 0 <= i < s.len() ==> #[trigger] is_ascii_hex(s[i])
}

/// `scheme_char` as a function value.
pub open spec fn scheme_ok() -> spec_fn(char) -> bool {
    |c: char| scheme_char(c)
}

/// `path_char` as a function value.
pub open spec fn path_ok() -> spec_fn(char) -> bool {
    |c: char| path_char(c)
}

/// `is_ascii_hex` as a function value.
pub open spec fn hex_ok() -> spec_fn(char) -> bool {
    |c: char| is_ascii_hex(c)
}

/// `'<s>'`.
pub open spec fn quoted(s: Seq<char>) -> Seq<char> {
    seq!['\''] + s + seq!['\'']
}

/// The message `validate_flake_ref` gives for the first problem of `s`.
pub open spec fn flake_ref_error(s: Seq<char>) -> Seq<char> {
    if s.len() == 0 {
        "flake_ref must not be empty"@
    } else {
        match first_index(s, ':') {
            None => "flake_ref missing scheme: "@ + quoted(s),
            Some(k) => {
                let scheme = s.take(k);
                let path = s.skip(k + 1);
                if scheme.len() == 0 || !is_ascii_alpha(scheme[0]) {
                    "flake_ref scheme must start with a letter: "@ + quoted(scheme)
                } else {
                    match first_failing(scheme, 1, scheme_ok()) {
                        Some(i) => "flake_ref scheme contains invalid character "@ + quoted(
                            seq![scheme[i]],
                        ) + ": "@ + quoted(scheme),
                        None => if path.len() == 0 {
                            "flake_ref path must not be empty: "@ + quoted(s)
                        } else {
                            match first_failing(path, 0, path_ok()) {
                                Some(i) => "flake_ref contains unsafe character "@ + quoted(
                                    seq![path[i]],
                                ) + ": "@ + quoted(s),
                                None => Seq::empty(),
                            }
                        },
                    }
                }
            },
        }
    }
}

/// The first position of `s` whose character is not allowed where it stands.
pub open spec fn first_attribute_failure(s: Seq<char>) -> Option<int> {
    if exists|i: int| 0 <= i < s.len() && !attribute_char_ok(s, i) {
        Some(
            choose|i: int|
                0 <= i < s.len() && !attribute_char_ok(s, i) && forall|j: int|
                    0 <= j < i ==> attribute_char_ok(s, j),
        )
    } else {
        None
    }
}

proof fn lemma_first_attribute_failure(s: Seq<char>, i: int)
    requires
        0 <= i < s.len(),
        !attribute_char_ok(s, i),
        forall|j: int| 0 <= j < i ==> #[trigger] attribute_char_ok(s, j),
    ensures
        first_attribute_failure(s) == Some(i),
{
    assert(exists|i: int| 0 <= i < s.len() && !attribute_char_ok(s, i));
    let j = choose|j: int|
        0 <= j < s.len() && !attribute_char_ok(s, j) && forall|k: int|
            0 <= k < j ==> attribute_char_ok(s, k);
    assert(0 <= j < s.len() && !attribute_char_ok(s, j) && forall|k: int|
        0 <= k < j ==> attribute_char_ok(s, k));
    if j < i {
        assert(attribute_char_ok(s, j));
    } else if j > i {
        assert(attribute_char_ok(s, i));
    }
}

/// The message `validate_attribute` gives for the first problem of `s`.
pub open spec fn attribute_error(s: Seq<char>) -> Seq<char> {
    if s.len() == 0 {
        "attribute must not be empty"@
    } else {
        match first_attribute_failure(s) {
            Some(i) => if i == 0 || s[i - 1] == '.' {
                if s[i] == '.' {
                    "attribute contains empty segment: "@ + quoted(s)
                } else {
                    "attribute segment must start with letter or '_', got "@ + quoted(seq![s[i]])
                        + ": "@ + quoted(s)
                }
            } else {
                "attribute contains invalid character "@ + quoted(seq![s[i]]) + ": "@ + quoted(s)
            },
            None => "attribute contains empty segment: "@ + quoted(s),
        }
    }
}

/// The message `validate_revision` gives for the first problem of `s`.
pub open spec fn revision_error(s: Seq<char>) -> Seq<char> {
    let n = encode_utf8(s).len();
    if n < 6 || n > 40 {
        "revision must be 6-40 hex characters, got "@ + decimal(n) + " characters: "@ + quoted(s)
    } else {
        match first_failing(s, 0, hex_ok()) {
            Some(i) => "revision contains non-hex character "@ + quoted(seq![s[i]]) + ": "@ + quoted(
                s,
            ),
            None => Seq::empty(),
        }
    }
}

fn push_quoted(m: &mut String, v: &[char], from: usize, to: usize)
    requires
        from <= to <= v@.len(),
    ensures
        final(m)@ == old(m)@ + quoted(v@.subrange(from as int, to as int)),
{
    m.push('\'');
    push_range(m, v, from, to);
    m.push('\'');
    proof {
        assert(final(m)@ =~= old(m)@ + quoted(v@.subrange(from as int, to as int)));
    }
}

fn char_message(prefix: &str, c: char, v: &[char], from: usize, to: usize) -> (e: NiphasError)
    requires
        from <= to <= v@.len(),
    ensures
        e matches NiphasError::InvalidInput(m) && m@ == prefix@ + quoted(seq![c]) + ": "@ + quoted(
            v@.subrange(from as int, to as int),
        ),
{
    let mut m = String::new();
    push_str(&mut m, prefix);
    m.push('\'');
    m.push(c);
    m.push('\'');
    push_str(&mut m, ": ");
    push_quoted(&mut m, v, from, to);
    proof {
        assert(m@ =~= prefix@ + quoted(seq![c]) + ": "@ + quoted(v@.subrange(from as int, to as int)));
    }
    NiphasError::InvalidInput(m)
}

fn subject_message(prefix: &str, v: &[char], from: usize, to: usize) -> (e: NiphasError)
    requires
        from <= to <= v@.len(),
    ensures
        e matches NiphasError::InvalidInput(m) && m@ == prefix@ + quoted(
            v@.subrange(from as int, to as int),
        ),
{
    let mut m = String::new();
    push_str(&mut m, prefix);
    push_quoted(&mut m, v, from, to);
    NiphasError::InvalidInput(m)
}

fn plain_message(text: &str) -> (e: NiphasError)
    ensures
        e matches NiphasError::InvalidInput(m) && m@ == text@,
{
    let mut m = String::new();
    push_str(&mut m, text);
    NiphasError::InvalidInput(m)
}

/// Validate a flake reference against injection-safe characters.
pub fn validate_flake_ref(flake_ref: &str) -> (r: Result<(), NiphasError>)
    ensures
        r is Ok <==> flake_ref_valid(flake_ref@),
        r matches Err(e) ==> e matches NiphasError::InvalidInput(m) && m@ == flake_ref_error(
            flake_ref@,
        ),
{
    let v = chars_of(flake_ref);
    proof {
        assert(v@.subrange(0, v@.len() as int) =~= flake_ref@);
    }
    if v.len() == 0 {
        return Err(plain_message("flake_ref must not be empty"));
    }
    let k = match find_char(&v, 0, v.len(), ':') {
        Some(k) => k,
        None => {
            proof {
                lemma_first_index_none(flake_ref@, ':');
            }
            return Err(subject_message("flake_ref missing scheme: ", &v, 0, v.len()));
        },
    };
    proof {
        lemma_first_index(flake_ref@, ':', k as int);
    }
    let ghost scheme = flake_ref@.take(k as int);
    let ghost path = flake_ref@.skip(k + 1);
    proof {
        assert(v@.subrange(0, k as int) =~= scheme);
    }
    if k == 0 || !ascii_alpha(v[0]) {
        return Err(subject_message("flake_ref scheme must start with a letter: ", &v, 0, k));
    }
    let mut i: usize = 1;
    while i < k
        invariant
            1 <= i <= k < v@.len(),
            v@ == flake_ref@,
            scheme == flake_ref@.take(k as int),
            scheme == v@.subrange(0, k as int),
            first_index(flake_ref@, ':') == Some(k as int),
            is_ascii_alpha(scheme[0]),
            forall|j: int| 1 <= j < i ==> #[trigger] scheme_char(scheme[j]),
        decreases k - i,
    {
        let c = v[i];
        if !(ascii_alnum(c) || c == '+' || c == '-' || c == '.') {
            proof {
                assert(!scheme_char(scheme[i as int]));
                assert forall|j: int| 1 <= j < i implies scheme_ok()(scheme[j]) by {
                    assert(scheme_char(scheme[j]));
                }
                lemma_first_failing(scheme, 1, scheme_ok(), i as int);
            }
            return Err(
                char_message("flake_ref scheme contains invalid character ", c, &v, 0, k),
            );
        }
        i += 1;
    }
    proof {
        assert forall|j: int| 1 <= j < scheme.len() implies scheme_ok()(scheme[j]) by {
            assert(scheme_char(scheme[j]));
        }
        lemma_first_failing_none(scheme, 1, scheme_ok());
    }
    if k + 1 == v.len() {
        return Err(subject_message("flake_ref path must not be empty: ", &v, 0, v.len()));
    }
    let mut j: usize = k + 1;
    while j < v.len()
        invariant
            k + 1 <= j <= v@.len(),
            v@ == flake_ref@,
            path == flake_ref@.skip(k + 1),
            scheme == flake_ref@.take(k as int),
            first_index(flake_ref@, ':') == Some(k as int),
            scheme.len() > 0,
            is_ascii_alpha(scheme[0]),
            forall|j: int| 1 <= j < scheme.len() ==> #[trigger] scheme_char(scheme[j]),
            first_failing(scheme, 1, scheme_ok()) is None,
            forall|t: int| 0 <= t < j - (k + 1) ==> #[trigger] path_char(path[t]),
        decreases v@.len() - j,
    {
        let c = v[j];
        if !(ascii_alnum(c) || c == '/' || c == '_' || c == '-' || c == '.' || c == '@' || c == ':'
            || c == '#' || c == '+' || c == '?' || c == '=' || c == '&' || c == '~') {
            proof {
                assert(path[j - (k + 1)] == c);
                assert(!path_char(path[j - (k + 1)]));
                assert forall|t: int| 0 <= t < j - (k + 1) implies path_ok()(path[t]) by {
                    assert(path_char(path[t]));
                }
                lemma_first_failing(path, 0, path_ok(), j - (k + 1));
            }
            return Err(
                char_message("flake_ref contains unsafe character ", c, &v, 0, v.len()),
            );
        }
        j += 1;
    }
    Ok(())
}

/// Validate a Nix attribute path (e.g. `packages.x86_64-linux.default`).
pub fn validate_attribute(attribute: &str) -> (r: Result<(), NiphasError>)
    ensures
        r is Ok <==> attribute_valid(attribute@),
        r matches Err(e) ==> e matches NiphasError::InvalidInput(m) && m@ == attribute_error(
            attribute@,
        ),
{
    let v = chars_of(attribute);
    proof {
        assert(v@.subrange(0, v@.len() as int) =~= attribute@);
    }
    if v.len() == 0 {
        return Err(plain_message("attribute must not be empty"));
    }
    let mut i: usize = 0;
    while i < v.len()
        invariant
            i <= v@.len(),
            v@ == attribute@,
            v@.subrange(0, v@.len() as int) == attribute@,
            forall|j: int| 0 <= j < i ==> #[trigger] attribute_char_ok(v@, j),
        decreases v@.len() - i,
    {
        let c = v[i];
        proof {
            assert(attribute_char_ok(v@, i as int) == if i == 0 || v@[i - 1] == '.' {
                is_ascii_alpha(c) || c == '_'
            } else {
                c == '.' || is_ascii_alnum(c) || c == '_' || c == '-'
            });
        }
        if i == 0 || v[i - 1] == '.' {
            if c == '.' {
                proof {
                    lemma_first_attribute_failure(v@, i as int);
                }
                return Err(subject_message("attribute contains empty segment: ", &v, 0, v.len()));
            }
            if !(ascii_alpha(c) || c == '_') {
                proof {
                    lemma_first_attribute_failure(v@, i as int);
                }
                return Err(
                    char_message(
                        "attribute segment must start with letter or '_', got ",
                        c,
                        &v,
                        0,
                        v.len(),
                    ),
                );
            }
        } else if !(c == '.' || ascii_alnum(c) || c == '_' || c == '-') {
            proof {
                lemma_first_attribute_failure(v@, i as int);
            }
            return Err(char_message("attribute contains invalid character ", c, &v, 0, v.len()));
        }
        i += 1;
    }
    if v[v.len() - 1] == '.' {
        proof {
            assert(!(exists|i: int| 0 <= i < v@.len() && !attribute_char_ok(v@, i)));
        }
        return Err(subject_message("attribute contains empty segment: ", &v, 0, v.len()));
    }
    Ok(())
}

/// Validate a git revision (hex SHA, 6-40 characters).
pub fn validate_revision(revision: &str) -> (r: Result<(), NiphasError>)
    ensures
        r is Ok <==> revision_valid(revision@),
        r matches Err(e) ==> e matches NiphasError::InvalidInput(m) && m@ == revision_error(
            revision@,
        ),
{
    let n = revision.as_bytes().len();
    let v = chars_of(revision);
    proof {
        assert(v@.subrange(0, v@.len() as int) =~= revision@);
    }
    if n < 6 || n > 40 {
        let mut m = String::new();
        push_str(&mut m, "revision must be 6-40 hex characters, got ");
        push_u64(&mut m, n as u64);
        push_str(&mut m, " characters: ");
        push_quoted(&mut m, &v, 0, v.len());
        return Err(NiphasError::InvalidInput(m));
    }
    let mut i: usize = 0;
    while i < v.len()
        invariant
            i <= v@.len(),
            v@ == revision@,
            v@.subrange(0, v@.len() as int) == revision@,
            6 <= encode_utf8(revision@).len() <= 40,
            forall|j: int| 0 <= j < i ==> #[trigger] is_ascii_hex(v@[j]),
        decreases v@.len() - i,
    {
        if !ascii_hex(v[i]) {
            proof {
                assert forall|j: int| 0 <= j < i implies hex_ok()(v@[j]) by {
                    assert(is_ascii_hex(v@[j]));
                }
                lemma_first_failing(v@, 0, hex_ok(), i as int);
            }
            return Err(char_message("revision contains non-hex character ", v[i], &v, 0, v.len()));
        }
        i += 1;
    }
    Ok(())
}

/// Everything `validate_eval_request` checks.
pub open spec fn eval_request_valid(req: EvalRequest) -> bool {
    &&& flake_ref_valid(req.flake_ref@)
    &&& attribute_valid(req.attribute@)
    &&& req.revision matches Some(rev) ==> revision_valid(rev@)
}

/// The message of the first check a request fails: the flake reference, then the
/// attribute, then the revision.
pub open spec fn eval_request_error(req: EvalRequest) -> Seq<char> {
    if !flake_ref_valid(req.flake_ref@) {
        flake_ref_error(req.flake_ref@)
    } else if !attribute_valid(req.attribute@) {
        attribute_error(req.attribute@)
    } else {
        match req.revision {
            Some(rev) => revision_error(rev@),
            None => Seq::empty(),
        }
    }
}

/// Validate all fields of an `EvalRequest`.
pub fn validate_eval_request(req: &EvalRequest) -> (r: Result<(), NiphasError>)
    ensures
        r is Ok <==> eval_request_valid(*req),
        r matches Err(e) ==> e matches NiphasError::InvalidInput(m) && m@ == eval_request_error(
            *req,
        ),
{
    match validate_flake_ref(req.flake_ref.as_str()) {
        Ok(()) => {},
        Err(e) => return Err(e),
    }
    match validate_attribute(req.attribute.as_str()) {
        Ok(()) => {},
        Err(e) => return Err(e),
    }
    match &req.revision {
        Some(rev) => validate_revision(rev.as_str()),
        None => Ok(()),
    }
}

} // verus!
