use vstd::prelude::*;
use crate::text::{
    all_digits, chars_of, decimal, digits_value, parse_u64, parse_u64_spec, push_str, push_u64,
    trim, trim_end, trim_range, trim_start,
};

verus! {

/// A binary cache.
#[derive(Debug, Clone)]
pub struct CacheConfig {
    /// Binary cache URL.
    pub url: String,
    /// Ed25519 public key for signature verification (`<name>:<base64-key>`).
    pub public_key: Option<String>,
    /// Priority (lower = preferred). Defaults to 40.
    pub priority: u32,
}

/// Closure resolution settings. Durations are whole seconds.
#[derive(Debug, Clone)]
pub struct ClosureResolutionConfig {
    /// Max concurrent .narinfo fetches.
    pub concurrency: usize,
    /// Timeout for resolving the full closure, in seconds.
    pub timeout: u64,
    /// Maximum number of store paths in a closure.
    pub max_paths: usize,
    /// Maximum total NAR bytes (uncompressed) for a closure.
    pub max_nar_bytes: u64,
}

/// Node-local NAR cache settings. Durations are whole seconds.
#[derive(Debug, Clone)]
pub struct CacheStorageConfig {
    /// Path to the node-local NAR cache.
    pub path: String,
    /// High watermark (bytes). GC starts when usage exceeds this.
    pub high_watermark_bytes: u64,
    /// Low watermark (bytes). GC stops when usage drops below this.
    pub low_watermark_bytes: u64,
    /// GC scan interval, in seconds.
    pub gc_interval: u64,
}

/// Top-level configuration, shared across niphas components. Durations are whole
/// seconds.
#[derive(Debug, Clone)]
pub struct NiphasConfig {
    /// Log level (RUST_LOG format). Defaults to "info".
    pub log_level: String,
    /// Binary caches, ordered by priority (first = highest).
    pub binary_caches: Vec<CacheConfig>,
    /// Flake origins allowed for evaluation (glob patterns).
    pub allowed_flake_origins: Vec<String>,
    /// URIs the Nix evaluator is allowed to fetch (restrict-eval allowlist).
    pub allowed_uris: Vec<String>,
    /// Evaluation timeout, in seconds.
    pub eval_timeout: u64,
    pub closure_resolution: ClosureResolutionConfig,
    pub cache: CacheStorageConfig,
    /// Eval webhook URL (used by operator).
    pub eval_webhook_url: String,
    /// Operator health/metrics server port.
    pub health_port: u16,
}

fn text(s: &str) -> (r: String)
    ensures
        r@ == s@,
{
    let mut r = String::new();
    push_str(&mut r, s);
    r
}

impl Default for ClosureResolutionConfig {
    fn default() -> (r: Self)
        ensures
            r.concurrency == 32,
            r.timeout == 60,
            r.max_paths == 50000,
            r.max_nar_bytes == 53687091200,
    {
        ClosureResolutionConfig {
            concurrency: 32,
            timeout: 60,
            max_paths: 50000,
            max_nar_bytes: 53687091200,
        }
    }
}

impl Default for CacheStorageConfig {
    fn default() -> (r: Self)
        ensures
            r.path@ == "/var/lib/niphas/cache"@,
            r.high_watermark_bytes == 16106127360,
            r.low_watermark_bytes == 10737418240,
            r.gc_interval == 300,
    {
        CacheStorageConfig {
            path: text("/var/lib/niphas/cache"),
            high_watermark_bytes: 16106127360,
            low_watermark_bytes: 10737418240,
            gc_interval: 300,
        }
    }
}

impl Default for NiphasConfig {
    fn default() -> (r: Self)
        ensures
            r.log_level@ == "info"@,
            r.binary_caches@.len() == 0,
            r.allowed_flake_origins@.len() == 0,
            r.allowed_uris@.len() == 0,
            r.eval_timeout == 300,
            r.closure_resolution.concurrency == 32,
            r.closure_resolution.timeout == 60,
            r.closure_resolution.max_paths == 50000,
            r.closure_resolution.max_nar_bytes == 53687091200,
            r.cache.path@ == "/var/lib/niphas/cache"@,
            r.cache.high_watermark_bytes == 16106127360,
            r.cache.low_watermark_bytes == 10737418240,
            r.cache.gc_interval == 300,
            r.eval_webhook_url@ == "http://niphas-eval.niphas-system.svc:8443"@,
            r.health_port == 8080,
    {
        NiphasConfig {
            log_level: text("info"),
            binary_caches: Vec::new(),
            allowed_flake_origins: Vec::new(),
            allowed_uris: Vec::new(),
            eval_timeout: 300,
            closure_resolution: ClosureResolutionConfig::default(),
            cache: CacheStorageConfig::default(),
            eval_webhook_url: text("http://niphas-eval.niphas-system.svc:8443"),
            health_port: 8080,
        }
    }
}

/// The problems `validate` reports, in order.
pub open spec fn config_problems(c: NiphasConfig) -> Seq<Seq<char>> {
    (if c.cache.high_watermark_bytes <= c.cache.low_watermark_bytes {
        seq![
            "cache.highWatermarkBytes ("@ + decimal(c.cache.high_watermark_bytes as nat)
                + ") must be greater than cache.lowWatermarkBytes ("@ + decimal(
                c.cache.low_watermark_bytes as nat,
            ) + ")"@,
        ]
    } else {
        Seq::empty()
    }) + (if c.eval_timeout == 0 {
        seq!["evalTimeout must be greater than 0"@]
    } else {
        Seq::empty()
    }) + (if c.closure_resolution.concurrency == 0 {
        seq!["closureResolution.concurrency must be greater than 0"@]
    } else {
        Seq::empty()
    }) + (if c.closure_resolution.timeout == 0 {
        seq!["closureResolution.timeout must be greater than 0"@]
    } else {
        Seq::empty()
    }) + (if c.binary_caches@.len() == 0 {
        seq!["binaryCaches must not be empty (at least one binary cache is required)"@]
    } else {
        Seq::empty()
    })
}

fn push_problem(errors: &mut Vec<String>, s: String)
    ensures
        final(errors)@.len() == old(errors)@.len() + 1,
        forall|i: int| 0 <= i < old(errors)@.len() ==> #[trigger] final(errors)@[i] == old(errors)@[i],
        final(errors)@.last() == s,
{
    errors.push(s);
}

impl NiphasConfig {
    /// Validate configuration invariants. Returns a list of problems found.
    pub fn validate(&self) -> (r: Result<(), Vec<String>>)
        ensures
            match r {
                Ok(()) => config_problems(*self).len() == 0,
                Err(v) => v@.len() > 0 && Seq::new(v@.len(), |i: int| v@[i]@) == config_problems(
                    *self,
                ),
            },
    {
        let mut errors: Vec<String> = Vec::new();
        let ghost mut expect: Seq<Seq<char>> = Seq::empty();
        if self.cache.high_watermark_bytes <= self.cache.low_watermark_bytes {
            let mut m = String::new();
            push_str(&mut m, "cache.highWatermarkBytes (");
            push_u64(&mut m, self.cache.high_watermark_bytes);
            push_str(&mut m, ") must be greater than cache.lowWatermarkBytes (");
            push_u64(&mut m, self.cache.low_watermark_bytes);
            push_str(&mut m, ")");
            push_problem(&mut errors, m);
        }
        if self.eval_timeout == 0 {
            push_problem(&mut errors, text("evalTimeout must be greater than 0"));
        }
        if self.closure_resolution.concurrency == 0 {
            push_problem(&mut errors, text("closureResolution.concurrency must be greater than 0"));
        }
        if self.closure_resolution.timeout == 0 {
            push_problem(&mut errors, text("closureResolution.timeout must be greater than 0"));
        }
        if self.binary_caches.len() == 0 {
            push_problem(
                &mut errors,
                text("binaryCaches must not be empty (at least one binary cache is required)"),
            );
        }
        proof {
            assert(Seq::new(errors@.len(), |i: int| errors@[i]@) =~= config_problems(*self));
        }
        if errors.len() == 0 {
            Ok(())
        } else {
            Err(errors)
        }
    }
}

/// Seconds as `parse_duration` reads them: a number with an optional `s`, `m` or `h`
/// suffix (surrounding and inner whitespace trimmed); `None` where the number does not
/// parse.
pub open spec fn duration_value(s: Seq<char>) -> Option<int> {
    let t = trim(s);
    if t.len() > 0 && t.last() == 's' {
        match parse_u64_spec(trim(t.drop_last())) {
            Some(n) => Some(n as int),
            None => None,
        }
    } else if t.len() > 0 && t.last() == 'm' {
        match parse_u64_spec(trim(t.drop_last())) {
            Some(n) => Some(n * 60),
            None => None,
        }
    } else if t.len() > 0 && t.last() == 'h' {
        match parse_u64_spec(trim(t.drop_last())) {
            Some(n) => Some(n * 3600),
            None => None,
        }
    } else {
        match parse_u64_spec(t) {
            Some(n) => Some(n as int),
            None => None,
        }
    }
}

/// The start of every message `parse_duration` refuses `s` with.
pub open spec fn duration_error_prefix(s: Seq<char>) -> Seq<char> {
    "invalid duration '"@ + trim(s) + "': "@
}

/// `s`, trimmed, ends in one of the unit suffixes `s`, `m`, `h`.
pub open spec fn has_unit(s: Seq<char>) -> bool {
    let t = trim(s);
    t.len() > 0 && (t.last() == 's' || t.last() == 'm' || t.last() == 'h')
}

/// What `parse_duration` gives for `s`: the seconds where the number reads, else the
/// error naming the text, with the integer parser's reason when a unit follows it.
pub open spec fn parse_duration_result(s: Seq<char>, r: Result<u64, String>) -> bool {
    match duration_value(s) {
        Some(n) => r == Ok::<u64, String>(n as u64),
        None => r matches Err(m) && if has_unit(s) {
            m@ == duration_error_prefix(s) + crate::text::u64_parse_message(trim(trim(s).drop_last()))
        } else {
            m@ == duration_error_prefix(s) + "expected format like '300s', '5m', '1h'"@
        },
    }
}

/// Parse a duration like `300s`, `5m`, `1h` or `60` into seconds.
///
/// A refused number with a unit is reported with the integer parser's own reason
/// after the prefix.
pub fn parse_duration(s: &str) -> (r: Result<u64, String>)
    requires
        duration_value(s@) matches Some(n) ==> n <= u64::MAX,
    ensures
        parse_duration_result(s@, r),
{
    let v = chars_of(s);
    let (a, b) = trim_range(&v, 0, v.len());
    proof {
        assert(v@.subrange(0, v@.len() as int) =~= s@);
    }
    let ghost t = v@.subrange(a as int, b as int);
    if a < b && (v[b - 1] == 's' || v[b - 1] == 'm' || v[b - 1] == 'h') {
        let unit = v[b - 1];
        let (c, d) = trim_range(&v, a, b - 1);
        proof {
            assert(t.drop_last() =~= v@.subrange(a as int, b - 1));
        }
        match parse_u64(&v, c, d) {
            Some(n) => {
                if unit == 's' {
                    Ok(n)
                } else if unit == 'm' {
                    Ok(n * 60)
                } else {
                    Ok(n * 3600)
                }
            },
            None => {
                let mut m = String::new();
                push_str(&mut m, "invalid duration '");
                let shown = crate::text::string_of(&v, a, b);
                push_str(&mut m, shown.as_str());
                push_str(&mut m, "': ");
                let ghost head = m@;
                let number = crate::text::string_of(&v, c, d);
                let cause = crate::text::u64_parse_error(number.as_str());
                push_str(&mut m, cause.as_str());
                proof {
                    assert(t == trim(s@));
                    assert(head =~= duration_error_prefix(s@));
                    assert(number@ == trim(trim(s@).drop_last()));
                }
                Err(m)
            },
        }
    } else {
        match parse_u64(&v, a, b) {
            Some(n) => Ok(n),
            None => {
                let mut m = String::new();
                push_str(&mut m, "invalid duration '");
                let shown = crate::text::string_of(&v, a, b);
                push_str(&mut m, shown.as_str());
                push_str(&mut m, "': ");
                push_str(&mut m, "expected format like '300s', '5m', '1h'");
                proof {
                    assert(t == trim(s@));
                    assert(m@ =~= duration_error_prefix(s@)
                        + "expected format like '300s', '5m', '1h'"@);
                }
                Err(m)
            },
        }
    }
}

/// Whether `parse_duration` can read `s` without overflowing: a number of minutes or
/// hours whose seconds do not fit in 64 bits is out of range; anything else is in.
pub fn duration_in_range(s: &str) -> (r: bool)
    ensures
        r == (duration_value(s@) matches Some(n) ==> n <= u64::MAX),
{
    let v = chars_of(s);
    let (a, b) = trim_range(&v, 0, v.len());
    proof {
        assert(v@.subrange(0, v@.len() as int) =~= s@);
    }
    let ghost t = v@.subrange(a as int, b as int);
    if a < b && (v[b - 1] == 'm' || v[b - 1] == 'h') {
        let unit = v[b - 1];
        let (c, d) = trim_range(&v, a, b - 1);
        proof {
            assert(t.drop_last() =~= v@.subrange(a as int, b - 1));
        }
        match parse_u64(&v, c, d) {
            Some(n) => {
                if unit == 'm' {
                    n <= 307445734561825860
                } else {
                    n <= 5124095576030431
                }
            },
            None => true,
        }
    } else {
        true
    }
}

/// How a duration is written back: whole seconds with an `s`.
pub fn format_duration(secs: u64) -> (r: String)
    ensures
        r@ == decimal(secs as nat) + "s"@,
{
    let mut r = String::new();
    push_u64(&mut r, secs);
    push_str(&mut r, "s");
    proof {
        assert(r@ =~= decimal(secs as nat) + "s"@);
    }
    r
}

/// The decimal digits of `n` are all digits, start with no `+`, and read back as `n`.
pub(crate) proof fn lemma_decimal_reads_back(n: nat)
    ensures
        all_digits(decimal(n)),
        digits_value(decimal(n)) == n,
        decimal(n)[0] != '+',
        !crate::text::is_whitespace(decimal(n)[0]),
        !crate::text::is_whitespace(decimal(n).last()),
    decreases n,
{
    if n >= 10 {
        lemma_decimal_reads_back(n / 10);
        let d = decimal(n / 10);
        let e = decimal(n);
        assert(e == d.push(crate::text::digit_char(n % 10)));
        assert(e.drop_last() =~= d);
        assert forall|i: int| 0 <= i < e.len() implies #[trigger] crate::text::is_ascii_digit(e[i]) by {
            if i < d.len() {
                assert(e[i] == d[i]);
            }
        }
        assert((n / 10) * 10 + n % 10 == n);
        assert(e.last() == crate::text::digit_char(n % 10));
        assert((e.last() as nat) == 48 + n % 10);
        assert(digits_value(e) == digits_value(d) * 10 + ((e.last() as nat) - 48) as nat);
        assert(digits_value(d) == n / 10);
        assert(digits_value(e) == (n / 10) * 10 + n % 10);
    } else {
        let e = decimal(n);
        assert(e.drop_last() =~= Seq::<char>::empty());
        assert((e.last() as nat) == 48 + n);
        assert(crate::text::is_ascii_digit(e[0]));
        assert(digits_value(e.drop_last()) == 0);
        assert(digits_value(e) == digits_value(e.drop_last()) * 10 + ((e.last() as nat) - 48) as nat);
    }
}

/// Reading back what `format_duration` writes gives the same number of seconds: for
/// every `n`, `parse_duration(format_duration(n))` is `Ok(n)`.
pub proof fn lemma_duration_roundtrip(n: u64)
    ensures
        duration_value(decimal(n as nat) + "s"@) == Some(n as int),
{
    reveal_strlit("s");
    let d = decimal(n as nat);
    let w = d + "s"@;
    lemma_decimal_reads_back(n as nat);
    assert(w.len() > 0 && !crate::text::is_whitespace(w[0])) by {
        assert(w[0] == d[0]);
    }
    assert(trim_start(w) == w);
    assert(w.last() == 's');
    assert(trim_end(w) == w);
    assert(trim(w) == w);
    assert(w.drop_last() =~= d);
    assert(trim_start(d) == d);
    assert(trim_end(d) == d);
    assert(trim(d) == d);
    assert(crate::text::unsigned_body(d) == d);
}


/// A number of minutes or hours written with its unit reads back as its seconds: for
/// every `n`, `n` followed by `m` is `n * 60` seconds and followed by `h` is `n * 3600`
/// (`parse_duration` gives them where they fit in 64 bits).
pub proof fn lemma_duration_units_roundtrip(n: u64)
    ensures
        duration_value(decimal(n as nat) + "m"@) == Some(n * 60),
        duration_value(decimal(n as nat) + "h"@) == Some(n * 3600),
{
    reveal_strlit("m");
    reveal_strlit("h");
    lemma_unit_reads_back(n, 'm');
    lemma_unit_reads_back(n, 'h');
    assert(decimal(n as nat) + "m"@ =~= decimal(n as nat) + seq!['m']);
    assert(decimal(n as nat) + "h"@ =~= decimal(n as nat) + seq!['h']);
}

proof fn lemma_unit_reads_back(n: u64, u: char)
    requires
        u == 'm' || u == 'h',
    ensures
        trim(decimal(n as nat) + seq![u]) == decimal(n as nat) + seq![u],
        trim((decimal(n as nat) + seq![u]).drop_last()) == decimal(n as nat),
        parse_u64_spec(decimal(n as nat)) == Some(n),
{
    let d = decimal(n as nat);
    let w = d + seq![u];
    lemma_decimal_reads_back(n as nat);
    assert(w.len() > 0 && !crate::text::is_whitespace(w[0])) by {
        assert(w[0] == d[0]);
    }
    assert(trim_start(w) == w);
    assert(w.last() == u);
    assert(trim_end(w) == w);
    assert(trim(w) == w);
    assert(w.drop_last() =~= d);
    assert(trim_start(d) == d);
    assert(trim_end(d) == d);
    assert(trim(d) == d);
    assert(crate::text::unsigned_body(d) == d);
}

/// `parse_duration` reads back what `format_duration` writes, and a number of minutes or
/// hours written with its unit: `n` followed by `s` gives `n`, by `m` gives `n * 60` and
/// by `h` gives `n * 3600`, where those fit in 64 bits.
pub proof fn lemma_parse_duration_roundtrip(n: u64, s: Seq<char>, r: Result<u64, String>)
    requires
        parse_duration_result(s, r),
    ensures
        s == decimal(n as nat) + "s"@ ==> r == Ok::<u64, String>(n),
        s == decimal(n as nat) + "m"@ && n * 60 <= u64::MAX ==> r == Ok::<u64, String>((n * 60) as u64),
        s == decimal(n as nat) + "h"@ && n * 3600 <= u64::MAX ==> r == Ok::<u64, String>(
            (n * 3600) as u64,
        ),
{
    lemma_duration_roundtrip(n);
    lemma_duration_units_roundtrip(n);
}

} // verus!
