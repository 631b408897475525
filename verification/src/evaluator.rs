use vstd::prelude::*;
use vstd::utf8::encode_utf8;
use crate::allowlist::{glob_matches, validate_flake_ref as check_allowlist};
use crate::app_error::AppError;
use crate::closure::ResolvedClosure;
use crate::config::CacheConfig;
use crate::error::NiphasError;
use crate::eval::{
    eval_request_error, eval_request_valid, validate_eval_request, EvalRequest, EvalResponse,
};
use crate::signature::{parse_trusted_key_spec, trusted_key_error, TrustedKey};
use crate::store_path::{store_path_parse_panics, StorePath};
use crate::text::push_str;

verus! {

/// The public keys the caches are configured with, in the caches' order.
pub open spec fn configured_keys(caches: Seq<CacheConfig>) -> Seq<Seq<char>>
    decreases caches.len(),
{
    if caches.len() == 0 {
        Seq::empty()
    } else {
        let rest = configured_keys(caches.drop_last());
        match caches.last().public_key {
            Some(k) => rest.push(k@),
            None => rest,
        }
    }
}

/// The trusted keys of the configured caches: every configured public key, parsed in
/// order; the first key that does not parse is the error.
pub fn trusted_keys(caches: &Vec<CacheConfig>) -> (r: Result<Vec<TrustedKey>, NiphasError>)
    ensures
        (r is Ok) == (forall|i: int|
            0 <= i < configured_keys(caches@).len() ==> #[trigger] parse_trusted_key_spec(
                configured_keys(caches@)[i],
            ) is Some),
        r matches Ok(v) ==> v@.len() == configured_keys(caches@).len() && forall|i: int|
            0 <= i < v@.len() ==> parse_trusted_key_spec(configured_keys(caches@)[i]) == Some(
                (#[trigger] v@[i].name@, v@[i].pubkey@),
            ),
        r matches Err(e) ==> exists|i: int|
            0 <= i < configured_keys(caches@).len() && #[trigger] parse_trusted_key_spec(
                configured_keys(caches@)[i],
            ) is None && (forall|j: int|
                0 <= j < i ==> parse_trusted_key_spec(configured_keys(caches@)[j]) is Some) && (
            e matches NiphasError::SignatureVerification(m) && trusted_key_error(
                configured_keys(caches@)[i],
                m@,
            )),
{
    let mut out: Vec<TrustedKey> = Vec::new();
    let mut i: usize = 0;
    while i < caches.len()
        invariant
            i <= caches@.len(),
            out@.len() == configured_keys(caches@.take(i as int)).len(),
            forall|j: int|
                0 <= j < out@.len() ==> parse_trusted_key_spec(
                    configured_keys(caches@.take(i as int))[j],
                ) == Some((#[trigger] out@[j].name@, out@[j].pubkey@)),
        decreases caches@.len() - i,
    {
        proof {
            lemma_configured_keys_step(caches@, i as int);
        }
        match &caches[i].public_key {
            Some(k) => match TrustedKey::parse(k.as_str()) {
                Ok(key) => {
                    out.push(key);
                },
                Err(e) => {
                    proof {
                        lemma_configured_keys_prefix(caches@, i as int + 1);
                        lemma_configured_keys_prefix(caches@, i as int);
                        let n = configured_keys(caches@.take(i as int)).len() as int;
                        assert(configured_keys(caches@.take(i + 1))[n] == k@);
                        assert(configured_keys(caches@)[n] == k@);
                        assert forall|j: int| 0 <= j < n implies parse_trusted_key_spec(
                            configured_keys(caches@)[j],
                        ) is Some by {
                            assert(configured_keys(caches@.take(i as int))[j] == configured_keys(
                                caches@,
                            )[j]);
                            assert(parse_trusted_key_spec(
                                configured_keys(caches@.take(i as int))[j],
                            ) == Some((out@[j].name@, out@[j].pubkey@)));
                        }
                        assert(parse_trusted_key_spec(configured_keys(caches@)[n]) is None);
                    }
                    return Err(e);
                },
            },
            None => {},
        }
        i += 1;
    }
    proof {
        assert(caches@.take(i as int) =~= caches@);
        assert forall|j: int| 0 <= j < configured_keys(caches@).len() implies #[trigger]
            parse_trusted_key_spec(configured_keys(caches@)[j]) is Some by {
            assert(parse_trusted_key_spec(configured_keys(caches@.take(i as int))[j]) == Some(
                (out@[j].name@, out@[j].pubkey@),
            ));
        }
    }
    Ok(out)
}

/// The keys of the first `n + 1` caches: those of the first `n`, and the key of cache
/// `n` when it has one.
proof fn lemma_configured_keys_step(caches: Seq<CacheConfig>, n: int)
    requires
        0 <= n < caches.len(),
    ensures
        configured_keys(caches.take(n + 1)) == match caches[n].public_key {
            Some(k) => configured_keys(caches.take(n)).push(k@),
            None => configured_keys(caches.take(n)),
        },
{
    assert(caches.take(n + 1).drop_last() =~= caches.take(n));
    assert(caches.take(n + 1).last() == caches[n]);
}

/// The keys of a prefix of the caches are a prefix of their keys.
proof fn lemma_configured_keys_prefix(caches: Seq<CacheConfig>, n: int)
    requires
        0 <= n <= caches.len(),
    ensures
        configured_keys(caches.take(n)).len() <= configured_keys(caches).len(),
        forall|j: int|
            0 <= j < configured_keys(caches.take(n)).len() ==> #[trigger] configured_keys(
                caches.take(n),
            )[j] == configured_keys(caches)[j],
    decreases caches.len() - n,
{
    if n < caches.len() {
        lemma_configured_keys_prefix(caches, n + 1);
        lemma_configured_keys_step(caches, n);
        assert forall|j: int| 0 <= j < configured_keys(caches.take(n)).len() implies #[trigger]
            configured_keys(caches.take(n))[j] == configured_keys(caches)[j] by {
            assert(configured_keys(caches.take(n + 1))[j] == configured_keys(caches.take(n))[j]);
        }
    } else {
        assert(caches.take(n) =~= caches);
    }
}

/// What `nix eval` prints for a flake attribute.
#[derive(Debug, Clone)]
pub struct NixEvalOutput {
    pub store_path: String,
    pub name: String,
    pub main_program: Option<String>,
}

/// Whether some pattern of the allowlist matches the flake reference.
pub open spec fn flake_allowed(flake_ref: Seq<char>, allowlist: Seq<String>) -> bool {
    exists|k: int|
        0 <= k < allowlist.len() && glob_matches(
            encode_utf8(flake_ref),
            encode_utf8(#[trigger] allowlist[k]@),
        )
}

/// The flake reference pinned to the requested revision: `<flake_ref>/<revision>`.
pub open spec fn pinned_ref_text(req: EvalRequest) -> Seq<char> {
    match req.revision {
        Some(rev) => req.flake_ref@ + "/"@ + rev@,
        None => req.flake_ref@,
    }
}

/// The end of the expression handed to `nix eval`, after the attribute.
pub open spec fn eval_expr_tail() -> Seq<char> {
    "; in builtins.toJSON {\n                storePath = drv.outPath;\n                name = drv.name;\n                mainProgram = drv.meta.mainProgram or null;\n            }"@
}

/// The Nix expression that evaluates `attribute` of the flake at `pinned` to JSON.
pub open spec fn eval_expr_text(pinned: Seq<char>, attribute: Seq<char>) -> Seq<char> {
    "let drv = (builtins.getFlake \""@ + pinned + "\")."@ + attribute + eval_expr_tail()
}

/// The flake reference to evaluate: the revision appended when one was requested.
pub fn pinned_flake_ref(req: &EvalRequest) -> (r: String)
    ensures
        r@ == pinned_ref_text(*req),
{
    let mut r = String::new();
    push_str(&mut r, req.flake_ref.as_str());
    match &req.revision {
        Some(rev) => {
            push_str(&mut r, "/");
            push_str(&mut r, rev.as_str());
        },
        None => {},
    }
    r
}

/// The expression `nix eval` runs for the pinned flake and attribute.
pub fn nix_eval_expr(pinned_ref: &str, attribute: &str) -> (r: String)
    ensures
        r@ == eval_expr_text(pinned_ref@, attribute@),
{
    let mut r = String::new();
    push_str(&mut r, "let drv = (builtins.getFlake \"");
    push_str(&mut r, pinned_ref);
    push_str(&mut r, "\").");
    push_str(&mut r, attribute);
    push_str(
        &mut r,
        "; in builtins.toJSON {\n                storePath = drv.outPath;\n                name = drv.name;\n                mainProgram = drv.meta.mainProgram or null;\n            }",
    );
    r
}

/// The checks before an evaluation: the request's characters, then the allowlist.
/// On success, the pinned reference and the expression to evaluate.
pub fn prepare_evaluation(req: &EvalRequest, allowlist: &[String]) -> (r: Result<
    (String, String),
    AppError,
>)
    ensures
        r is Ok <==> eval_request_valid(*req) && flake_allowed(req.flake_ref@, allowlist@),
        !eval_request_valid(*req) ==> (r matches Err(AppError::InvalidInput(m)) && m@
            == eval_request_error(*req)),
        eval_request_valid(*req) && !flake_allowed(req.flake_ref@, allowlist@) ==> (r matches Err(
            AppError::FlakeNotAllowed(m),
        ) && m@ == if allowlist@.len() == 0 {
            req.flake_ref@ + ": no flake origins are allowed (empty allowlist)"@
        } else {
            req.flake_ref@ + " not in allowlist"@
        }),
        r matches Ok((p, e)) ==> p@ == pinned_ref_text(*req) && e@ == eval_expr_text(
            p@,
            req.attribute@,
        ),
{
    match validate_eval_request(req) {
        Ok(()) => {},
        Err(e) => {
            let a = AppError::from_niphas_error(e);
            return Err(a);
        },
    }
    match check_allowlist(req.flake_ref.as_str(), allowlist) {
        Ok(()) => {},
        Err(e) => return Err(e),
    }
    let pinned = pinned_flake_ref(req);
    let expr = nix_eval_expr(pinned.as_str(), req.attribute.as_str());
    Ok((pinned, expr))
}

/// The error for a `nix eval` that could not run or whose output did not parse:
/// `<what>: <cause>` as an evaluation failure.
pub fn eval_failure(what: &str, cause: &str) -> (e: AppError)
    ensures
        e matches AppError::EvalFailed(m) && m@ == what@ + ": "@ + cause@,
{
    let mut m = String::new();
    push_str(&mut m, what);
    push_str(&mut m, ": ");
    push_str(&mut m, cause);
    AppError::EvalFailed(m)
}

/// The root of the closure to resolve: the store path `nix eval` printed.
pub fn eval_root(store_path: &str) -> (r: Result<StorePath, AppError>)
    requires
        !store_path_parse_panics(store_path@),
    ensures
        match r {
            Ok(sp) => StorePath::parse_result(store_path@, Ok(sp)),
            Err(a) => exists|e: NiphasError|
                #[trigger] StorePath::parse_result(store_path@, Err(e)) && (a matches AppError::Internal(
                    m,
                ) && m@ == "invalid store path from eval: "@ + e.text()),
        },
{
    match StorePath::parse(store_path) {
        Ok(sp) => Ok(sp),
        Err(e) => {
            let mut m = String::new();
            push_str(&mut m, "invalid store path from eval: ");
            let t = e.to_string();
            push_str(&mut m, t.as_str());
            let a = AppError::Internal(m);
            proof {
                assert(StorePath::parse_result(store_path@, Err(e)));
            }
            Err(a)
        },
    }
}

/// The answer of an evaluation: the evaluated path, its name and main program, and the
/// paths of its closure; a failed resolution becomes `ClosureResolutionFailed`.
pub fn eval_response(output: NixEvalOutput, resolved: Result<ResolvedClosure, NiphasError>) -> (r:
    Result<EvalResponse, AppError>)
    ensures
        match resolved {
            Ok(c) => r matches Ok(resp) && resp.store_path@ == output.store_path@ && resp.name@
                == output.name@ && resp.main_program == output.main_program && resp.closure_paths@
                == c.paths@,
            Err(e) => r matches Err(AppError::ClosureResolutionFailed(m)) && m@ == e.text(),
        },
{
    match resolved {
        Ok(c) => Ok(
            EvalResponse {
                store_path: output.store_path,
                name: output.name,
                main_program: output.main_program,
                closure_paths: c.paths,
            },
        ),
        Err(e) => Err(AppError::ClosureResolutionFailed(e.to_string())),
    }
}

} // verus!
