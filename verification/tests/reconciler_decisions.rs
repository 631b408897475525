use niphas::health::{liveness_status, readiness_status, HealthState};
use niphas::crd::{
    ConditionStatus, NiphasWorkload, NiphasWorkloadSpec, NiphasWorkloadStatus, WorkloadMeta,
    WorkloadPhase,
};
use niphas::eval::EvalResponse;
use niphas::operator_error::{error_policy, OperatorError, Requeue};
use niphas::reconciler::{
    after_eval_failure, available_event, build_failed_conditions, build_success_conditions, decide,
    deletion_event, eval_failed_event, eval_started_event, eval_succeeded_event, finalizer_patch,
    provisioned_event, make_condition, phase_patch, remove_finalizer_patch, settled_requeue,
    upsert_conditions, ReconcileDecision, WorkloadState, FINALIZER,
};


fn base_workload() -> NiphasWorkload {
    NiphasWorkload {
        metadata: WorkloadMeta {
            name: Some("test-app".to_string()),
            generate_name: None,
            namespace: Some("default".to_string()),
            uid: Some("uid-1234".to_string()),
            generation: Some(1),
            deletion_pending: false,
            finalizers: None,
        },
        spec: NiphasWorkloadSpec {
            flake_ref: "github:test/app".into(),
            attribute: "packages.x86_64-linux.default".into(),
            revision: None,
            replicas: Some(2),
            binary_cache: None,
            command: None,
            args: None,
            env: None,
            ports: None,
            resources: None,
            liveness_probe: None,
            readiness_probe: None,
            startup_probe: None,
            node_selector: None,
            tolerations: None,
            affinity: None,
            service: None,
            ingress: None,
            extra_volumes: None,
            extra_volume_mounts: None,
            architectures: None,
        },
        status: None,
    }
}

fn with_finalizer(workload: &mut NiphasWorkload) {
    workload.metadata.finalizers = Some(vec![FINALIZER.to_string()]);
}

fn running_status(generation: i64) -> NiphasWorkloadStatus {
    NiphasWorkloadStatus {
        observed_generation: Some(generation),
        phase: WorkloadPhase::Running,
        store_path: Some("/nix/store/abc123-myapp-1.0".to_string()),
        resolved_command: Some("/nix/store/abc123-myapp-1.0/bin/myapp".to_string()),
        closure_paths: Some(vec!["/nix/store/abc123-myapp-1.0".to_string()]),
        ready_replicas: Some(2),
        conditions: None,
        last_eval: None,
        architectures: None,
    }
}

#[test]
fn decide_deletion_takes_priority() {
    let state = WorkloadState {
        name: "test-app".into(),
        namespace: "default".into(),
        generation: 1,
        deletion_pending: true,
        has_finalizer: true,
        existing_finalizers: vec![FINALIZER.to_string()],
        observed_generation: 1,
        phase: Some(WorkloadPhase::Running),
        status: None,
        desired_replicas: 1,
    };
    assert_eq!(decide(&state), ReconcileDecision::HandleDeletion);
}

#[test]
fn decide_missing_finalizer() {
    let workload = base_workload();
    let state = WorkloadState::from_workload(&workload);
    assert_eq!(
        decide(&state),
        ReconcileDecision::AddFinalizer {
            existing_finalizers: vec![],
        }
    );
}

#[test]
fn decide_up_to_date() {
    let mut workload = base_workload();
    with_finalizer(&mut workload);
    workload.status = Some(running_status(1));
    let state = WorkloadState::from_workload(&workload);
    assert_eq!(decide(&state), ReconcileDecision::UpToDate);
}

#[test]
fn decide_needs_eval_new_generation() {
    let mut workload = base_workload();
    with_finalizer(&mut workload);
    workload.metadata.generation = Some(2);
    workload.status = Some(running_status(1));
    let state = WorkloadState::from_workload(&workload);
    assert_eq!(decide(&state), ReconcileDecision::RunEval);
}

#[test]
fn decide_uses_cached_eval() {
    let mut workload = base_workload();
    with_finalizer(&mut workload);
    let mut status = running_status(1);
    status.phase = WorkloadPhase::Provisioning;
    workload.status = Some(status);
    let state = WorkloadState::from_workload(&workload);
    match decide(&state) {
        ReconcileDecision::Provision { eval_result } => {
            assert_eq!(eval_result.store_path, "/nix/store/abc123-myapp-1.0");
        }
        other => panic!("expected Provision, got {:?}", other),
    }
}

#[test]
fn conditions_upsert_replaces_by_type() {
    let existing = vec![
        make_condition("Evaluated", ConditionStatus::True, "Ok", "ok", 1),
        make_condition(
            "Progressing",
            ConditionStatus::True,
            "Updating",
            "updating",
            1,
        ),
    ];
    let new = vec![make_condition(
        "Evaluated",
        ConditionStatus::False,
        "EvalFailed",
        "timeout",
        2,
    )];
    let result = upsert_conditions(Some(&existing), new);
    assert_eq!(result.len(), 2);
    assert_eq!(result[0].type_, "Evaluated");
    assert_eq!(result[0].status, ConditionStatus::False);
    assert_eq!(result[0].reason, "EvalFailed");
    assert_eq!(result[1].type_, "Progressing");
    assert_eq!(result[1].status, ConditionStatus::True);
}

#[test]
fn conditions_upsert_preserves_others() {
    let existing = vec![make_condition(
        "Custom",
        ConditionStatus::True,
        "Something",
        "custom condition",
        1,
    )];
    let new = vec![make_condition(
        "Evaluated",
        ConditionStatus::True,
        "EvalSucceeded",
        "ok",
        1,
    )];
    let result = upsert_conditions(Some(&existing), new);
    assert_eq!(result.len(), 2);
    assert_eq!(result[0].type_, "Custom");
    assert_eq!(result[1].type_, "Evaluated");
}

#[test]
fn build_success_conditions_running_has_available() {
    let eval = EvalResponse {
        store_path: "/nix/store/abc-app".into(),
        name: "app".into(),
        main_program: Some("app".into()),
        closure_paths: vec![],
    };
    let conditions = build_success_conditions(&eval, WorkloadPhase::Running, 3, 3, 5);
    assert_eq!(conditions.len(), 3);
    assert_eq!(conditions[0].type_, "Evaluated");
    assert_eq!(conditions[0].status, ConditionStatus::True);
    assert_eq!(conditions[1].type_, "Progressing");
    assert_eq!(conditions[1].status, ConditionStatus::False);
    assert_eq!(conditions[1].reason, "NewReplicaSetAvailable");
    assert_eq!(conditions[2].type_, "Available");
    assert_eq!(conditions[2].status, ConditionStatus::True);
}

#[test]
fn build_success_conditions_provisioning_no_available() {
    let eval = EvalResponse {
        store_path: "/nix/store/abc-app".into(),
        name: "app".into(),
        main_program: Some("app".into()),
        closure_paths: vec![],
    };
    let conditions = build_success_conditions(&eval, WorkloadPhase::Provisioning, 1, 3, 5);
    assert_eq!(conditions.len(), 2);
    assert_eq!(conditions[0].type_, "Evaluated");
    assert_eq!(conditions[1].type_, "Progressing");
    assert_eq!(conditions[1].status, ConditionStatus::True);
    assert_eq!(conditions[1].reason, "ReplicaSetUpdated");
    assert!(conditions.iter().all(|c| c.type_ != "Available"));
}

#[test]
fn build_failed_conditions_sets_evaluated_false() {
    let conditions = build_failed_conditions("EvalTimeout", "timed out after 60s", 3);
    assert_eq!(conditions.len(), 1);
    assert_eq!(conditions[0].type_, "Evaluated");
    assert_eq!(conditions[0].status, ConditionStatus::False);
    assert_eq!(conditions[0].reason, "EvalTimeout");
    assert_eq!(conditions[0].observed_generation, Some(3));
}

// -- own tests --

use niphas::json::{Json, Member};
use niphas::reconciler::{status_patch_body, update_status_step};

fn s(x: &str) -> Json {
    Json::Str(x.to_string())
}

fn obj(members: Vec<(&str, Json)>) -> Json {
    Json::Obj(
        members
            .into_iter()
            .map(|(k, v)| Member { key: k.to_string(), value: v })
            .collect(),
    )
}

#[test]
fn finalizer_patches() {
    let existing = vec!["other/finalizer".to_string()];
    assert_eq!(
        finalizer_patch(&existing),
        obj(vec![(
            "metadata",
            obj(vec![(
                "finalizers",
                Json::Arr(vec![s("other/finalizer"), s(FINALIZER)])
            )])
        )])
    );
    let with_ours = vec!["other/finalizer".to_string(), FINALIZER.to_string()];
    assert_eq!(
        remove_finalizer_patch(&with_ours),
        obj(vec![(
            "metadata",
            obj(vec![("finalizers", Json::Arr(vec![s("other/finalizer")]))])
        )])
    );
    assert_eq!(
        remove_finalizer_patch(&vec![FINALIZER.to_string()]),
        obj(vec![("metadata", obj(vec![("finalizers", Json::Null)]))])
    );
}

#[test]
fn phase_patch_shape() {
    assert_eq!(
        phase_patch(WorkloadPhase::Evaluating),
        obj(vec![("status", obj(vec![("phase", s("Evaluating"))]))])
    );
}

#[test]
fn decide_without_status_runs_eval() {
    let mut workload = base_workload();
    with_finalizer(&mut workload);
    workload.metadata.generation = None;
    let state = WorkloadState::from_workload(&workload);
    assert_eq!(state.generation, 0);
    assert_eq!(state.desired_replicas, 2);
    assert!(state.has_finalizer);
    // observed 0 >= generation 0 but no status: evaluate
    assert_eq!(decide(&state), ReconcileDecision::RunEval);
}

#[test]
fn decide_cached_eval_keeps_recorded_result() {
    let mut workload = base_workload();
    with_finalizer(&mut workload);
    let mut status = running_status(1);
    status.phase = WorkloadPhase::Failed;
    status.store_path =
        Some("/nix/store/00bgd045z0d4icpbc2yyz4gx48ak44la-net-tools-2.10".to_string());
    workload.status = Some(status);
    let state = WorkloadState::from_workload(&workload);
    match decide(&state) {
        ReconcileDecision::Provision { eval_result } => {
            assert_eq!(eval_result.name, "net-tools-2.10");
            assert_eq!(eval_result.main_program, Some("myapp".to_string()));
            assert_eq!(eval_result.closure_paths, vec!["/nix/store/abc123-myapp-1.0".to_string()]);
        }
        other => panic!("expected Provision, got {:?}", other),
    }
}

#[test]
fn eval_failure_marks_failed_and_requeues() {
    let mut workload = base_workload();
    with_finalizer(&mut workload);
    let state = WorkloadState::from_workload(&workload);
    let (patch, requeue) = after_eval_failure(&state, &OperatorError::EvalTimeout(60));
    assert_eq!(patch.phase, WorkloadPhase::Failed);
    assert_eq!(requeue, Requeue::After(30));
    assert_eq!(patch.conditions.len(), 1);
    assert_eq!(patch.conditions[0].reason, "EvalTimeout");
    assert_eq!(patch.conditions[0].message, "Evaluation timed out after 60s");
}

#[test]
fn status_update_intervals() {
    let workload = base_workload();
    let state = WorkloadState::from_workload(&workload);
    let eval = EvalResponse {
        store_path: "/nix/store/abc-app".into(),
        name: "app".into(),
        main_program: None,
        closure_paths: vec!["/nix/store/abc-app".into()],
    };
    let (patch, requeue) = update_status_step(&state, &eval, 1, 2);
    assert_eq!(patch.phase, WorkloadPhase::Provisioning);
    assert_eq!(requeue, Requeue::After(5));
    let (patch, requeue) = update_status_step(&state, &eval, 2, 2);
    assert_eq!(patch.phase, WorkloadPhase::Running);
    assert_eq!(requeue, Requeue::After(300));
    assert_eq!(patch.conditions.len(), 3);
    assert_eq!(patch.conditions[0].message, "Resolved /nix/store/abc-app");
    let body = status_patch_body(&patch);
    match body {
        Json::Obj(m) => assert_eq!(m[0].key, "status"),
        other => panic!("unexpected {:?}", other),
    }
}

#[test]
fn requeue_policies() {
    assert_eq!(settled_requeue(&ReconcileDecision::HandleDeletion), Some(Requeue::AwaitChange));
    assert_eq!(
        settled_requeue(&ReconcileDecision::AddFinalizer { existing_finalizers: vec![] }),
        Some(Requeue::After(0))
    );
    assert_eq!(settled_requeue(&ReconcileDecision::UpToDate), Some(Requeue::After(300)));
    assert_eq!(settled_requeue(&ReconcileDecision::RunEval), None);
    assert_eq!(error_policy(&OperatorError::Kube("x".into())), Requeue::After(10));
    assert_eq!(error_policy(&OperatorError::Serialization("x".into())), Requeue::After(60));
}

#[test]
fn upsert_twice_is_upsert_once() {
    let existing = vec![make_condition("A", ConditionStatus::True, "r", "m", 1)];
    let new = || vec![make_condition("A", ConditionStatus::False, "r2", "m2", 2)];
    let once = upsert_conditions(Some(&existing), new());
    let twice = upsert_conditions(Some(&once), new());
    assert_eq!(once.len(), twice.len());
    assert_eq!(once[0].reason, twice[0].reason);
    assert_eq!(once[0].status, twice[0].status);
}

#[test]
fn events_of_the_reconcile_steps() {
    let e = deletion_event("web");
    assert!(!e.warning);
    assert_eq!((e.reason.as_str(), e.note.as_str()), ("Deleting", "Cleaning up workload web"));
    let e = eval_started_event();
    assert_eq!((e.reason.as_str(), e.note.as_str()), ("EvalStarted", "Starting flake evaluation"));
    let e = eval_succeeded_event("/nix/store/abc-x");
    assert_eq!(e.note, "Resolved store path: /nix/store/abc-x");
    let e = eval_failed_event(&OperatorError::EvalTimeout(30));
    assert!(e.warning);
    assert_eq!((e.reason.as_str(), e.note.as_str()), ("EvalTimeout", "Evaluation timed out after 30s"));
    let e = provisioned_event();
    assert_eq!((e.reason.as_str(), e.note.as_str()), ("Provisioned", "Child resources applied"));
    assert!(available_event(1, 2).is_none());
    let e = available_event(2, 2).unwrap();
    assert_eq!((e.reason.as_str(), e.note.as_str()), ("Available", "All replicas ready"));
}

#[test]
fn health_status_codes() {
    let state = HealthState { ready: std::sync::Arc::new(std::sync::atomic::AtomicBool::new(false)) };
    assert_eq!(liveness_status(), 200);
    assert_eq!(readiness_status(state.ready.load(std::sync::atomic::Ordering::Relaxed)), 503);
    state.ready.store(true, std::sync::atomic::Ordering::Relaxed);
    assert_eq!(readiness_status(state.ready.load(std::sync::atomic::Ordering::Relaxed)), 200);
}
