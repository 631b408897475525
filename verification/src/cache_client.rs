use vstd::prelude::*;
use crate::config::CacheConfig;
use crate::error::NiphasError;
use crate::text::{chars_of, push_range, push_str};

verus! {

/// `s` without its trailing slashes (`str::trim_end_matches('/')`).
pub open spec fn trim_end_slashes(s: Seq<char>) -> Seq<char>
    decreases s.len(),
{
    if s.len() > 0 && s.last() == '/' {
        trim_end_slashes(s.drop_last())
    } else {
        s
    }
}

/// The URL of `rel` in the cache at `base`: `base` without trailing slashes, `/`, `rel`.
pub fn cache_url(base: &str, rel: &str) -> (r: String)
    ensures
        r@ == trim_end_slashes(base@) + "/"@ + rel@,
{
    let v = chars_of(base);
    let mut end: usize = v.len();
    proof {
        assert(v@.take(end as int) =~= base@);
    }
    while end > 0 && v[end - 1] == '/'
        invariant
            end <= v@.len(),
            v@ == base@,
            trim_end_slashes(v@.take(end as int)) == trim_end_slashes(base@),
        decreases end,
    {
        proof {
            assert(v@.take(end as int).drop_last() =~= v@.take(end - 1));
        }
        end = end - 1;
    }
    let mut r = String::new();
    push_range(&mut r, &v, 0, end);
    push_str(&mut r, "/");
    push_str(&mut r, rel);
    proof {
        assert(v@.subrange(0, end as int) =~= v@.take(end as int));
    }
    r
}

/// The file name of a `.narinfo`: `<hash>.narinfo`.
pub fn narinfo_file(hash: &str) -> (r: String)
    ensures
        r@ == hash@ + ".narinfo"@,
{
    let mut r = String::new();
    push_str(&mut r, hash);
    push_str(&mut r, ".narinfo");
    r
}

/// How a request to one cache failed.
#[derive(Debug, Clone, PartialEq, Eq)]
pub enum FetchFailure {
    /// The cache answered 404.
    NotFound,
    /// The cache answered another non-success status, as it displays
    /// (`<code> <reason>`).
    Status(String),
    /// The request itself failed, with its error message.
    RequestFailed(String),
}

/// The error a failed `.narinfo` request leaves: a 404 means the path (or hash) is not
/// cached there; another status or a failed request is a cache error.
pub fn narinfo_fetch_error(target: &str, url: &str, failure: &FetchFailure) -> (e: NiphasError)
    ensures
        match failure {
            FetchFailure::NotFound => e matches NiphasError::StorePathNotCached(m) && m@ == target@,
            FetchFailure::Status(s) => e matches NiphasError::Cache(m) && m@ == "HTTP "@ + s@
                + " from "@ + url@,
            FetchFailure::RequestFailed(c) => e matches NiphasError::Cache(m) && m@
                == "request failed: "@ + c@,
        },
{
    let mut m = String::new();
    match failure {
        FetchFailure::NotFound => {
            push_str(&mut m, target);
            NiphasError::StorePathNotCached(m)
        },
        FetchFailure::Status(s) => {
            push_str(&mut m, "HTTP ");
            push_str(&mut m, s.as_str());
            push_str(&mut m, " from ");
            push_str(&mut m, url);
            NiphasError::Cache(m)
        },
        FetchFailure::RequestFailed(c) => {
            push_str(&mut m, "request failed: ");
            push_str(&mut m, c.as_str());
            NiphasError::Cache(m)
        },
    }
}

/// The error a failed NAR request leaves; a 404 is a status like any other.
pub fn nar_fetch_error(url: &str, failure: &FetchFailure) -> (e: NiphasError)
    ensures
        match failure {
            FetchFailure::NotFound => e matches NiphasError::Cache(m) && m@ == "HTTP 404 Not Found fetching NAR from "@
                + url@,
            FetchFailure::Status(s) => e matches NiphasError::Cache(m) && m@ == "HTTP "@ + s@
                + " fetching NAR from "@ + url@,
            FetchFailure::RequestFailed(c) => e matches NiphasError::Cache(m) && m@
                == "NAR request failed: "@ + c@,
        },
{
    let mut m = String::new();
    match failure {
        FetchFailure::NotFound => {
            push_str(&mut m, "HTTP 404 Not Found fetching NAR from ");
            push_str(&mut m, url);
        },
        FetchFailure::Status(s) => {
            push_str(&mut m, "HTTP ");
            push_str(&mut m, s.as_str());
            push_str(&mut m, " fetching NAR from ");
            push_str(&mut m, url);
        },
        FetchFailure::RequestFailed(c) => {
            push_str(&mut m, "NAR request failed: ");
            push_str(&mut m, c.as_str());
        },
    }
    NiphasError::Cache(m)
}

/// What a fetch over all caches ends with when none succeeded: the last cache's error,
/// or a cache error when no cache is configured.
pub fn fetch_exhausted(last: Option<NiphasError>) -> (e: NiphasError)
    ensures
        match last {
            Some(l) => e == l,
            None => e matches NiphasError::Cache(m) && m@ == "no binary caches configured"@,
        },
{
    match last {
        Some(l) => l,
        None => {
            let mut m = String::new();
            push_str(&mut m, "no binary caches configured");
            NiphasError::Cache(m)
        },
    }
}

/// The error for a body that could not be read: `failed to read <what> body: <cause>`.
pub fn body_read_error(what: &str, cause: &str) -> (e: NiphasError)
    ensures
        e matches NiphasError::Cache(m) && m@ == "failed to read "@ + what@ + " body: "@ + cause@,
{
    let mut m = String::new();
    push_str(&mut m, "failed to read ");
    push_str(&mut m, what);
    push_str(&mut m, " body: ");
    push_str(&mut m, cause);
    NiphasError::Cache(m)
}

/// Whether a cache has priority `p`, as a function value.
pub open spec fn has_priority(p: u32) -> spec_fn(CacheConfig) -> bool {
    |c: CacheConfig| c.priority == p
}

/// Whether the caches are in order of priority (lower first).
pub open spec fn by_priority(s: Seq<CacheConfig>) -> bool {
    forall|i: int, j: int| 0 <= i < j < s.len() ==> s[i].priority <= s[j].priority
}

/// Nothing after `pos` has priority `p` or lower.
proof fn lemma_no_priority_after(s: Seq<CacheConfig>, pos: int, p: u32)
    requires
        0 <= pos <= s.len(),
        forall|k: int| pos <= k < s.len() ==> s[k].priority > p,
    ensures
        s.skip(pos).filter(has_priority(p)) == Seq::<CacheConfig>::empty(),
    decreases s.len() - pos,
{
    reveal(Seq::filter);
    let t = s.skip(pos);
    if t.len() > 0 {
        lemma_no_priority_after(s.drop_last(), pos, p);
        assert(t.drop_last() =~= s.drop_last().skip(pos));
        assert(t.last() == s[s.len() - 1]);
    } else {
        assert(t =~= Seq::<CacheConfig>::empty());
    }
}

/// Inserting `x` before everything of higher priority adds it at the end of the caches
/// of its own priority and changes no other priority's caches.
proof fn lemma_insert_keeps_order(s: Seq<CacheConfig>, pos: int, x: CacheConfig, p: u32)
    requires
        0 <= pos <= s.len(),
        forall|k: int| pos <= k < s.len() ==> s[k].priority > x.priority,
    ensures
        s.insert(pos, x).filter(has_priority(p)) == if x.priority == p {
            s.filter(has_priority(p)).push(x)
        } else {
            s.filter(has_priority(p))
        },
{
    let f = has_priority(p);
    let a = s.take(pos);
    let b = s.skip(pos);
    assert(s.insert(pos, x) =~= a + seq![x] + b);
    assert(s =~= a + b);
    Seq::<CacheConfig>::filter_distributes_over_add(a + seq![x], b, f);
    Seq::<CacheConfig>::filter_distributes_over_add(a, seq![x], f);
    Seq::<CacheConfig>::filter_distributes_over_add(a, b, f);
    reveal_with_fuel(Seq::filter, 2);
    assert(seq![x].drop_last() =~= Seq::<CacheConfig>::empty());
    if x.priority == p {
        lemma_no_priority_after(s, pos, x.priority);
        assert(a.filter(f) + seq![x] + Seq::<CacheConfig>::empty() =~= (a.filter(f) + Seq::<
            CacheConfig,
        >::empty()).push(x));
    } else {
        assert(seq![x].filter(f) =~= Seq::<CacheConfig>::empty());
        assert(a.filter(f) + Seq::<CacheConfig>::empty() =~= a.filter(f));
    }
}

/// The caches in order of priority, lower first; caches of equal priority keep their
/// order (the stable `sort_by_key` on the priority).
pub fn sort_by_priority(caches: Vec<CacheConfig>) -> (r: Vec<CacheConfig>)
    ensures
        by_priority(r@),
        forall|p: u32| #[trigger] r@.filter(has_priority(p)) == caches@.filter(has_priority(p)),
{
    let ghost orig = caches@;
    let n = caches.len();
    let mut src = caches;
    let mut out: Vec<CacheConfig> = Vec::new();
    let mut i: usize = 0;
    proof {
        assert(orig.take(0) =~= Seq::<CacheConfig>::empty());
        assert(src@ =~= orig.skip(0));
        assert forall|p: u32| #[trigger] out@.filter(has_priority(p)) == orig.take(0).filter(
            has_priority(p),
        ) by {
            reveal(Seq::filter);
        }
    }
    while src.len() > 0
        invariant
            i <= orig.len(),
            orig.len() == n,
            src@ == orig.skip(i as int),
            by_priority(out@),
            forall|p: u32| #[trigger] out@.filter(has_priority(p)) == orig.take(i as int).filter(
                has_priority(p),
            ),
        decreases src@.len(),
    {
        let x = src.remove(0);
        let mut pos: usize = 0;
        while pos < out.len() && out[pos].priority <= x.priority
            invariant
                pos <= out@.len(),
                forall|k: int| 0 <= k < pos ==> #[trigger] out@[k].priority <= x.priority,
            decreases out@.len() - pos,
        {
            pos += 1;
        }
        let ghost before = out@;
        proof {
            assert forall|k: int| pos <= k < before.len() implies #[trigger] before[k].priority
                > x.priority by {
                assert(before[pos as int].priority > x.priority);
                if k > pos {
                    assert(before[pos as int].priority <= before[k].priority);
                }
            }
        }
        out.insert(pos, x);
        proof {
            assert(x == orig[i as int]);
            assert(orig.take(i + 1) =~= orig.take(i as int).push(x));
            assert forall|p: u32| #[trigger] out@.filter(has_priority(p)) == orig.take(i + 1).filter(
                has_priority(p),
            ) by {
                lemma_insert_keeps_order(before, pos as int, x, p);
                reveal_with_fuel(Seq::filter, 1);
                assert(orig.take(i + 1).drop_last() =~= orig.take(i as int));
            }
            assert forall|a: int, b: int| 0 <= a < b < out@.len() implies out@[a].priority
                <= out@[b].priority by {
                if a < pos && b > pos {
                    assert(out@[a] == before[a]);
                    assert(out@[b] == before[b - 1]);
                } else if a < pos && b == pos {
                    assert(out@[a] == before[a]);
                } else if a == pos {
                    assert(out@[b] == before[b - 1]);
                } else if b < pos {
                    assert(out@[a] == before[a]);
                    assert(out@[b] == before[b]);
                } else {
                    assert(out@[a] == before[a - 1]);
                    assert(out@[b] == before[b - 1]);
                }
            }
            assert(src@ =~= orig.skip(i + 1));
        }
        i += 1;
    }
    proof {
        assert(orig.take(i as int) =~= orig);
    }
    out
}

} // verus!
