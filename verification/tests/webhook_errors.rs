use niphas::app_error::AppError;
use niphas::error::NiphasError;
use niphas::json::{Json, Member};

fn status_of(err: AppError) -> u16 {
    err.status_code()
}

fn body_field(body: &Json, key: &str) -> String {
    match body {
        Json::Obj(members) => match members.iter().find(|m: &&Member| m.key == key) {
            Some(Member { value: Json::Str(s), .. }) => s.clone(),
            other => panic!("unexpected {:?}", other),
        },
        other => panic!("unexpected {:?}", other),
    }
}

#[test]
fn test_invalid_input_400() {
    assert_eq!(status_of(AppError::InvalidInput("bad flake_ref".into())), 400);
}

#[test]
fn test_flake_not_allowed_403() {
    assert_eq!(status_of(AppError::FlakeNotAllowed("bad".into())), 403);
}

#[test]
fn test_eval_failed_422() {
    assert_eq!(status_of(AppError::EvalFailed("nix failed".into())), 422);
}

#[test]
fn test_eval_timeout_408() {
    assert_eq!(status_of(AppError::EvalTimeout), 408);
}

#[test]
fn test_closure_resolution_502() {
    assert_eq!(status_of(AppError::ClosureResolutionFailed("fail".into())), 502);
}

#[test]
fn test_internal_500() {
    assert_eq!(status_of(AppError::Internal("oops".into())), 500);
}

#[test]
fn test_error_body_shape() {
    let body = AppError::FlakeNotAllowed("github:evil/repo".into()).error_body();
    assert_eq!(body_field(&body, "error"), "FlakeNotAllowed");
    assert_eq!(body_field(&body, "message"), "flake not allowed: github:evil/repo");
}

#[test]
fn test_invalid_input_body_shape() {
    let body = AppError::InvalidInput("bad field".into()).error_body();
    assert_eq!(body_field(&body, "error"), "InvalidInput");
    assert_eq!(body_field(&body, "message"), "invalid input: bad field");
}

#[test]
fn test_from_niphas_error() {
    let err: AppError = AppError::from_niphas_error(NiphasError::InvalidInput("bad".into()));
    assert!(matches!(err, AppError::InvalidInput(_)));

    let err: AppError = AppError::from_niphas_error(NiphasError::FlakeNotAllowed("x".into()));
    assert!(matches!(err, AppError::FlakeNotAllowed(_)));

    let err: AppError = AppError::from_niphas_error(NiphasError::EvalTimeout(300));
    assert!(matches!(err, AppError::EvalTimeout));

    let err: AppError = AppError::from_niphas_error(NiphasError::ClosureResolution("fail".into()));
    assert!(matches!(err, AppError::ClosureResolutionFailed(_)));

    let err: AppError = AppError::from_niphas_error(NiphasError::Io("x".into()));
    assert!(matches!(err, AppError::Internal(_)));
}

// -- own tests --

#[test]
fn store_path_not_cached_404_and_codes() {
    assert_eq!(status_of(AppError::StorePathNotCached("x".into())), 404);
    assert_eq!(AppError::Internal("x".into()).error_code(), "InternalError");
    assert_eq!(AppError::EvalTimeout.error_code(), "EvalTimeout");
    assert_eq!(AppError::EvalTimeout.to_string(), "evaluation exceeded timeout");
    assert_eq!(
        AppError::ClosureResolutionFailed("x".into()).to_string(),
        "closure resolution failed: x"
    );
}

#[test]
fn internal_carries_the_whole_library_message() {
    match AppError::from_niphas_error(NiphasError::HashMismatch {
        expected: "a".into(),
        actual: "b".into(),
    }) {
        AppError::Internal(m) => assert_eq!(m, "hash mismatch: expected a, got b"),
        other => panic!("unexpected {:?}", other),
    }
    match AppError::from_niphas_error(NiphasError::StorePathNotCached("p".into())) {
        AppError::StorePathNotCached(m) => assert_eq!(m, "p"),
        other => panic!("unexpected {:?}", other),
    }
}

#[test]
fn library_error_messages() {
    assert_eq!(NiphasError::EvalTimeout(300).to_string(), "evaluation timed out after 300s");
    assert_eq!(NiphasError::Io("x".into()).to_string(), "I/O error: x");
    assert_eq!(NiphasError::NarInfoParse("y".into()).to_string(), ".narinfo parse error: y");
    assert_eq!(NiphasError::Kube("z".into()).to_string(), "kubernetes api error: z");
}
