use vstd::prelude::*;
use crate::crd::{NiphasWorkload, NiphasWorkloadStatus};
use crate::eval::{EvalRequest, EvalResponse};
use crate::operator_error::OperatorError;
use crate::store_path::{basename_parts, store_path_parse_panics, store_prefix, StorePath};
use crate::text::{chars_of, push_str, push_u64, string_of};

verus! {

/// The error body the eval webhook answers a refused request with.
#[derive(Debug)]
pub struct EvalErrorResponse {
    pub error: String,
    pub message: String,
}

/// What follows the last `/` of `s` (all of `s` when it has none).
pub open spec fn last_segment(s: Seq<char>) -> Seq<char>
    decreases s.len(),
{
    if s.len() == 0 {
        s
    } else if s.last() == '/' {
        Seq::empty()
    } else {
        last_segment(s.drop_last()).push(s.last())
    }
}

/// The name part of a store path text, when it parses as a store path.
pub open spec fn store_path_name(s: Seq<char>) -> Option<Seq<char>> {
    if s.len() >= 11 && s.take(11) == store_prefix() {
        match basename_parts(s.skip(11)) {
            Some(p) => Some(p.1),
            None => None,
        }
    } else {
        None
    }
}

fn copy_text(s: &str) -> (r: String)
    ensures
        r@ == s@,
{
    let mut r = String::new();
    push_str(&mut r, s);
    r
}

fn copy_texts(v: &Vec<String>) -> (r: Vec<String>)
    ensures
        r@.len() == v@.len(),
        forall|i: int| 0 <= i < v@.len() ==> #[trigger] r@[i]@ == v@[i]@,
{
    let mut out: Vec<String> = Vec::new();
    let mut i: usize = 0;
    while i < v.len()
        invariant
            i <= v@.len(),
            out@.len() == i,
            forall|k: int| 0 <= k < i ==> #[trigger] out@[k]@ == v@[k]@,
        decreases v@.len() - i,
    {
        out.push(copy_text(v[i].as_str()));
        i += 1;
    }
    out
}

/// The text after the last `/`.
fn last_segment_of(s: &str) -> (r: String)
    ensures
        r@ == last_segment(s@),
{
    let v = chars_of(s);
    let mut i: usize = v.len();
    proof {
        assert(s@.take(i as int) =~= s@);
        assert(s@ + s@.subrange(i as int, s@.len() as int) =~= s@);
        assert(last_segment(s@) + s@.subrange(i as int, s@.len() as int) =~= last_segment(s@));
    }
    while i > 0 && v[i - 1] != '/'
        invariant
            i <= v@.len(),
            v@ == s@,
            last_segment(s@) == last_segment(s@.take(i as int)) + s@.subrange(i as int, s@.len() as int),
        decreases i,
    {
        proof {
            assert(s@.take(i as int).drop_last() =~= s@.take(i - 1));
            assert(s@.take(i as int).last() == s@[i - 1]);
            assert(last_segment(s@.take(i - 1)).push(s@[i - 1]) + s@.subrange(i as int, s@.len() as int)
                =~= last_segment(s@.take(i - 1)) + s@.subrange(i - 1, s@.len() as int));
        }
        i -= 1;
    }
    proof {
        if i == 0 {
            assert(s@.take(0).len() == 0);
        } else {
            assert(s@.take(i as int).last() == '/');
        }
        assert(last_segment(s@.take(i as int)) =~= Seq::<char>::empty());
        assert(Seq::<char>::empty() + s@.subrange(i as int, s@.len() as int) =~= s@.subrange(
            i as int,
            s@.len() as int,
        ));
    }
    string_of(&v, i, v.len())
}

/// Whether `e` is the eval result recorded in `status`: its store path, the name of that
/// path (`unknown` when it does not parse), the program the resolved command runs, and
/// the closure paths (none when absent).
pub open spec fn recorded_eval_result(status: NiphasWorkloadStatus, e: EvalResponse) -> bool {
    &&& status.store_path matches Some(sp) && e.store_path@ == sp@
    &&& e.name@ == match status.store_path {
        Some(sp) => match store_path_name(sp@) {
            Some(n) => n,
            None => "unknown"@,
        },
        None => "unknown"@,
    }
    &&& match status.resolved_command {
        Some(c) => e.main_program matches Some(m) && m@ == last_segment(c@),
        None => e.main_program is None,
    }
    &&& match status.closure_paths {
        Some(v) => e.closure_paths@.len() == v@.len() && forall|i: int|
            0 <= i < v@.len() ==> #[trigger] e.closure_paths@[i]@ == v@[i]@,
        None => e.closure_paths@.len() == 0,
    }
}

/// Rebuilds the eval result recorded in a workload status, if it has a store path.
pub fn eval_result_from_status(status: &NiphasWorkloadStatus) -> (r: Option<EvalResponse>)
    requires
        status.store_path matches Some(sp) ==> !store_path_parse_panics(sp@),
    ensures
        match status.store_path {
            None => r is None,
            Some(sp) => r matches Some(e) && recorded_eval_result(*status, e),
        },
{
    let sp = match &status.store_path {
        Some(sp) => sp,
        None => return None,
    };
    let closure_paths = match &status.closure_paths {
        Some(v) => copy_texts(v),
        None => Vec::new(),
    };
    let name = match StorePath::parse(sp.as_str()) {
        Ok(p) => p.name,
        Err(_) => copy_text("unknown"),
    };
    let main_program = match &status.resolved_command {
        Some(c) => Some(last_segment_of(c.as_str())),
        None => None,
    };
    Some(EvalResponse { store_path: copy_text(sp.as_str()), name, main_program, closure_paths })
}

fn copy_opt(o: &Option<String>) -> (r: Option<String>)
    ensures
        match o {
            Some(s) => r matches Some(t) && t@ == s@,
            None => r is None,
        },
{
    match o {
        Some(s) => Some(copy_text(s.as_str())),
        None => None,
    }
}

/// The request sent to the eval webhook for a workload: its flake reference,
/// attribute, revision and binary cache.
pub fn eval_request_for(workload: &NiphasWorkload) -> (r: EvalRequest)
    ensures
        r.flake_ref@ == workload.spec.flake_ref@,
        r.attribute@ == workload.spec.attribute@,
        match workload.spec.revision {
            Some(v) => r.revision matches Some(t) && t@ == v@,
            None => r.revision is None,
        },
        match workload.spec.binary_cache {
            Some(v) => r.binary_cache matches Some(t) && t@ == v@,
            None => r.binary_cache is None,
        },
{
    EvalRequest {
        flake_ref: copy_text(workload.spec.flake_ref.as_str()),
        attribute: copy_text(workload.spec.attribute.as_str()),
        revision: copy_opt(&workload.spec.revision),
        binary_cache: copy_opt(&workload.spec.binary_cache),
    }
}

/// The webhook's evaluate endpoint: `<eval_url without trailing slashes>/evaluate`.
pub fn evaluate_url(eval_url: &str) -> (r: String)
    ensures
        r@ == crate::cache_client::trim_end_slashes(eval_url@) + "/evaluate"@,
{
    let r = crate::cache_client::cache_url(eval_url, "evaluate");
    proof {
        reveal_strlit("evaluate");
        reveal_strlit("/evaluate");
        reveal_strlit("/");
        assert(crate::cache_client::trim_end_slashes(eval_url@) + "/"@ + "evaluate"@
            =~= crate::cache_client::trim_end_slashes(eval_url@) + "/evaluate"@);
    }
    r
}

/// The error for a request to the webhook that got no answer: a timeout, or the
/// request's own error.
pub fn webhook_request_error(timed_out: bool, cause: &str, timeout_secs: u64) -> (e: OperatorError)
    ensures
        timed_out ==> e == OperatorError::EvalTimeout(timeout_secs),
        !timed_out ==> (e matches OperatorError::EvalWebhook(m) && m@ == "request failed: "@ + cause@),
{
    if timed_out {
        OperatorError::EvalTimeout(timeout_secs)
    } else {
        let mut m = String::new();
        push_str(&mut m, "request failed: ");
        push_str(&mut m, cause);
        OperatorError::EvalWebhook(m)
    }
}

/// The error for a success answer whose body is not an eval result.
pub fn webhook_body_error(cause: &str) -> (e: OperatorError)
    ensures
        e matches OperatorError::EvalWebhook(m) && m@ == "invalid response body: "@ + cause@,
{
    let mut m = String::new();
    push_str(&mut m, "invalid response body: ");
    push_str(&mut m, cause);
    OperatorError::EvalWebhook(m)
}

/// The error for a refused request: the webhook's error code and message when its body
/// is an error response, otherwise the status and the raw body.
pub fn webhook_refusal(status: &str, body: &str, parsed: Option<EvalErrorResponse>) -> (e:
    OperatorError)
    ensures
        match parsed {
            Some(p) => e == (OperatorError::EvalFailed { code: p.error, message: p.message }),
            None => e matches OperatorError::EvalWebhook(m) && m@ == "HTTP "@ + status@ + ": "@
                + body@,
        },
{
    match parsed {
        Some(p) => OperatorError::EvalFailed { code: p.error, message: p.message },
        None => {
            let mut m = String::new();
            push_str(&mut m, "HTTP ");
            push_str(&mut m, status);
            push_str(&mut m, ": ");
            push_str(&mut m, body);
            OperatorError::EvalWebhook(m)
        },
    }
}

} // verus!
