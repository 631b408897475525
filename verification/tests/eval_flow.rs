use niphas::app_error::AppError;
use niphas::closure::ResolvedClosure;
use niphas::crd::{NiphasWorkload, NiphasWorkloadSpec, NiphasWorkloadStatus, WorkloadMeta, WorkloadPhase};
use niphas::error::NiphasError;
use niphas::eval::EvalRequest;
use niphas::eval_client::{
    eval_request_for, eval_result_from_status, evaluate_url, webhook_body_error,
    webhook_refusal, webhook_request_error, EvalErrorResponse,
};
use niphas::config::CacheConfig;
use niphas::evaluator::{
    trusted_keys,
    eval_failure, eval_response, eval_root, nix_eval_expr, pinned_flake_ref, prepare_evaluation,
    NixEvalOutput,
};
use niphas::operator_error::OperatorError;

// -- own tests --

fn request(flake_ref: &str, attribute: &str, revision: Option<&str>) -> EvalRequest {
    EvalRequest {
        flake_ref: flake_ref.into(),
        attribute: attribute.into(),
        revision: revision.map(|r| r.to_string()),
        binary_cache: None,
    }
}

#[test]
fn pinned_reference_and_expression() {
    assert_eq!(pinned_flake_ref(&request("github:org/app", "default", None)), "github:org/app");
    assert_eq!(
        pinned_flake_ref(&request("github:org/app", "default", Some("a1b2c3"))),
        "github:org/app/a1b2c3"
    );
    assert_eq!(
        nix_eval_expr("github:org/app", "packages.x86_64-linux.default"),
        "let drv = (builtins.getFlake \"github:org/app\").packages.x86_64-linux.default; in builtins.toJSON {\n                storePath = drv.outPath;\n                name = drv.name;\n                mainProgram = drv.meta.mainProgram or null;\n            }"
    );
}

#[test]
fn prepare_checks_characters_before_the_allowlist() {
    let allow = vec!["github:org/*".to_string()];
    assert!(matches!(
        prepare_evaluation(&request("github:org/app\"", "default", None), &allow),
        Err(AppError::InvalidInput(_))
    ));
    assert!(matches!(
        prepare_evaluation(&request("github:evil/app", "default", None), &allow),
        Err(AppError::FlakeNotAllowed(_))
    ));
    let (pinned, expr) =
        prepare_evaluation(&request("github:org/app", "default", Some("abcdef")), &allow).unwrap();
    assert_eq!(pinned, "github:org/app/abcdef");
    assert!(expr.starts_with("let drv = (builtins.getFlake \"github:org/app/abcdef\").default;"));
}

#[test]
fn eval_outcomes() {
    assert_eq!(
        eval_failure("nix eval failed", "error: no flake"),
        AppError::EvalFailed("nix eval failed: error: no flake".into())
    );
    let root = eval_root("/nix/store/00bgd045z0d4icpbc2yyz4gx48ak44la-net-tools-2.10").unwrap();
    assert_eq!(root.name, "net-tools-2.10");
    assert_eq!(
        eval_root("/tmp/x").unwrap_err(),
        AppError::Internal(
            "invalid store path from eval: invalid store path: missing /nix/store/ prefix: '/tmp/x'"
                .into()
        )
    );
    let out = NixEvalOutput {
        store_path: "/nix/store/a-x".into(),
        name: "x".into(),
        main_program: Some("x".into()),
    };
    let resolved = ResolvedClosure { narinfos: vec![], keys: vec![], paths: vec!["/nix/store/a-x".into()] };
    let resp = eval_response(out.clone(), Ok(resolved)).unwrap();
    assert_eq!(resp.closure_paths, vec!["/nix/store/a-x".to_string()]);
    assert_eq!(resp.main_program, Some("x".to_string()));
    assert_eq!(
        eval_response(out, Err(NiphasError::Timeout("t".into()))).unwrap_err(),
        AppError::ClosureResolutionFailed("timeout: t".into())
    );
}

fn workload() -> NiphasWorkload {
    NiphasWorkload {
        metadata: WorkloadMeta {
            name: Some("app".into()),
            generate_name: None,
            namespace: Some("default".into()),
            uid: None,
            generation: Some(1),
            deletion_pending: false,
            finalizers: None,
        },
        spec: NiphasWorkloadSpec {
            flake_ref: "github:test/app".into(),
            attribute: "default".into(),
            revision: Some("abcdef".into()),
            replicas: None,
            binary_cache: Some("https://c".into()),
            command: None,
            args: None,
            env: None,
            ports: None,
            resources: None,
            liveness_probe: None,
            readiness_probe: None,
            startup_probe: None,
            node_selector: None,
            tolerations: None,
            affinity: None,
            service: None,
            ingress: None,
            extra_volumes: None,
            extra_volume_mounts: None,
            architectures: None,
        },
        status: None,
    }
}

#[test]
fn webhook_request_and_errors() {
    let req = eval_request_for(&workload());
    assert_eq!(req.flake_ref, "github:test/app");
    assert_eq!(req.revision, Some("abcdef".to_string()));
    assert_eq!(req.binary_cache, Some("https://c".to_string()));
    assert_eq!(evaluate_url("http://eval:8443/"), "http://eval:8443/evaluate");
    assert!(matches!(webhook_request_error(true, "x", 30), OperatorError::EvalTimeout(30)));
    match webhook_request_error(false, "refused", 30) {
        OperatorError::EvalWebhook(m) => assert_eq!(m, "request failed: refused"),
        other => panic!("unexpected {:?}", other),
    }
    match webhook_body_error("eof") {
        OperatorError::EvalWebhook(m) => assert_eq!(m, "invalid response body: eof"),
        other => panic!("unexpected {:?}", other),
    }
    let parsed = EvalErrorResponse { error: "FlakeNotAllowed".into(), message: "no".into() };
    match webhook_refusal("403 Forbidden", "{}", Some(parsed)) {
        OperatorError::EvalFailed { code, message } => {
            assert_eq!(code, "FlakeNotAllowed");
            assert_eq!(message, "no");
        }
        other => panic!("unexpected {:?}", other),
    }
    match webhook_refusal("502 Bad Gateway", "oops", None) {
        OperatorError::EvalWebhook(m) => assert_eq!(m, "HTTP 502 Bad Gateway: oops"),
        other => panic!("unexpected {:?}", other),
    }
}

#[test]
fn eval_result_recorded_in_status() {
    let status = NiphasWorkloadStatus {
        observed_generation: Some(1),
        phase: WorkloadPhase::Running,
        store_path: Some("/nix/store/00bgd045z0d4icpbc2yyz4gx48ak44la-net-tools-2.10".into()),
        resolved_command: Some("/nix/store/x/bin/ifconfig".into()),
        closure_paths: None,
        last_eval: None,
        ready_replicas: None,
        conditions: None,
        architectures: None,
    };
    let r = eval_result_from_status(&status).unwrap();
    assert_eq!(r.name, "net-tools-2.10");
    assert_eq!(r.main_program, Some("ifconfig".to_string()));
    assert!(r.closure_paths.is_empty());
    let mut status = status;
    status.store_path = None;
    assert!(eval_result_from_status(&status).is_none());
}

#[test]
fn operator_error_texts() {
    let e = OperatorError::EvalFailed { code: "EvalFailed".into(), message: "boom".into() };
    assert_eq!(e.to_string(), "eval failed: EvalFailed: boom");
    assert!(!e.is_transient());
    let (reason, message) = e.reason_and_message();
    assert_eq!(reason, "EvalFailed");
    assert_eq!(message, "boom");
    let t = OperatorError::EvalTimeout(60);
    assert!(t.is_transient());
    assert_eq!(t.to_string(), "eval timeout after 60s");
    let k = OperatorError::Kube("x".into());
    assert_eq!(k.reason_and_message(), ("EvalFailed".to_string(), "kubernetes api error: x".to_string()));
}

fn cache(url: &str, key: Option<&str>) -> CacheConfig {
    CacheConfig { url: url.to_string(), public_key: key.map(|k| k.to_string()), priority: 40 }
}

#[test]
fn trusted_keys_of_the_caches() {
    let good = "cache.nixos.org-1:6NCHdD59X431o0gWypbMrAURkbJ16ZPMQFGspcDShjY=";
    let keys = trusted_keys(&vec![
        cache("https://a", Some(good)),
        cache("https://b", None),
        cache("https://c", Some(good)),
    ])
    .unwrap();
    assert_eq!(keys.len(), 2);
    assert_eq!(keys[0].name, "cache.nixos.org-1");
    assert!(trusted_keys(&vec![cache("https://b", None)]).unwrap().is_empty());
    match trusted_keys(&vec![cache("https://a", Some(good)), cache("https://b", Some("nocolon"))]) {
        Err(NiphasError::SignatureVerification(m)) => {
            assert_eq!(m, "key missing ':' separator: 'nocolon'")
        }
        other => panic!("unexpected {:?}", other.map(|v| v.len())),
    }
}
