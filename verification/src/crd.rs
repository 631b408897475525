use vstd::prelude::*;
use crate::json::Json;

verus! {

/// The metadata of a `NiphasWorkload` that the operator reads.
#[derive(Debug)]
pub struct WorkloadMeta {
    pub name: Option<String>,
    pub generate_name: Option<String>,
    pub namespace: Option<String>,
    pub uid: Option<String>,
    pub generation: Option<i64>,
    /// Whether a deletion timestamp is set.
    pub deletion_pending: bool,
    pub finalizers: Option<Vec<String>>,
}

/// A `NiphasWorkload` custom resource (group `niphas.io`, version `v1alpha1`).
#[derive(Debug)]
pub struct NiphasWorkload {
    pub metadata: WorkloadMeta,
    pub spec: NiphasWorkloadSpec,
    pub status: Option<NiphasWorkloadStatus>,
}

/// The desired state of a workload. Kubernetes sub-objects (env, ports, probes, ...) are
/// held as the JSON they serialize to.
#[derive(Debug)]
pub struct NiphasWorkloadSpec {
    /// Flake reference. E.g. `github:myorg/myapp`.
    pub flake_ref: String,
    /// Flake output attribute path. E.g. `packages.x86_64-linux.default`.
    pub attribute: String,
    /// Git revision to pin. Must be a 6-40 char hex string.
    pub revision: Option<String>,
    /// Number of pod replicas. Defaults to 1.
    pub replicas: Option<i32>,
    /// Override binary cache URL for this workload.
    pub binary_cache: Option<String>,
    /// Override entrypoint. If omitted, resolved from `meta.mainProgram`.
    pub command: Option<Vec<String>>,
    /// Arguments passed to the command.
    pub args: Option<Vec<String>>,
    pub env: Option<Vec<Json>>,
    pub ports: Option<Vec<Json>>,
    pub resources: Option<Json>,
    pub liveness_probe: Option<Json>,
    pub readiness_probe: Option<Json>,
    pub startup_probe: Option<Json>,
    /// Additional node selector labels (merged with `niphas.io/store=true`), in key order.
    pub node_selector: Option<Vec<(String, String)>>,
    /// Extra tolerations. Operator always injects not-ready/unreachable (30s).
    pub tolerations: Option<Vec<Json>>,
    pub affinity: Option<Json>,
    /// If set, the operator creates a Service with ownerReferences.
    pub service: Option<NiphasServiceSpec>,
    /// If set, the operator creates an Ingress with ownerReferences.
    pub ingress: Option<NiphasIngressSpec>,
    pub extra_volumes: Option<Vec<Json>>,
    pub extra_volume_mounts: Option<Vec<Json>>,
    /// If set, evaluate per-architecture.
    pub architectures: Option<Vec<String>>,
}

#[derive(Debug)]
pub struct NiphasServiceSpec {
    /// Service type: ClusterIP, NodePort, LoadBalancer. Defaults to ClusterIP.
    pub type_: Option<String>,
    pub ports: Vec<NiphasServicePort>,
}

#[derive(Debug)]
pub struct NiphasServicePort {
    pub name: Option<String>,
    pub port: i32,
    /// Target port (name or number as string).
    pub target_port: Option<String>,
    /// Protocol (TCP, UDP). Defaults to TCP.
    pub protocol: Option<String>,
}

#[derive(Debug)]
pub struct NiphasIngressSpec {
    pub enabled: bool,
    pub class_name: Option<String>,
    pub hosts: Option<Vec<NiphasIngressHost>>,
    pub tls: Option<Vec<NiphasIngressTls>>,
}

#[derive(Debug)]
pub struct NiphasIngressHost {
    pub host: String,
    pub paths: Vec<NiphasIngressPath>,
}

#[derive(Debug)]
pub struct NiphasIngressPath {
    pub path: String,
    /// Path type: Prefix, Exact, ImplementationSpecific.
    pub path_type: Option<String>,
    /// Backend port (name or number as string).
    pub port: String,
}

#[derive(Debug)]
pub struct NiphasIngressTls {
    pub secret_name: String,
    pub hosts: Vec<String>,
}

/// High-level phase of a NiphasWorkload.
#[derive(Debug, Clone, Copy, PartialEq, Eq, Structural)]
pub enum WorkloadPhase {
    Pending,
    Evaluating,
    Provisioning,
    Running,
    Failed,
}

impl WorkloadPhase {
    /// The phase's name.
    pub open spec fn name(self) -> Seq<char> {
        match self {
            WorkloadPhase::Pending => "Pending"@,
            WorkloadPhase::Evaluating => "Evaluating"@,
            WorkloadPhase::Provisioning => "Provisioning"@,
            WorkloadPhase::Running => "Running"@,
            WorkloadPhase::Failed => "Failed"@,
        }
    }

    /// The phase's name.
    pub fn as_str(&self) -> (r: &'static str)
        ensures
            r@ == self.name(),
    {
        match self {
            WorkloadPhase::Pending => "Pending",
            WorkloadPhase::Evaluating => "Evaluating",
            WorkloadPhase::Provisioning => "Provisioning",
            WorkloadPhase::Running => "Running",
            WorkloadPhase::Failed => "Failed",
        }
    }
}

/// Condition status following the K8s convention.
#[derive(Debug, Clone, Copy, PartialEq, Eq, Structural)]
pub enum ConditionStatus {
    True,
    False,
    Unknown,
}

impl ConditionStatus {
    /// The status's name.
    pub open spec fn name(self) -> Seq<char> {
        match self {
            ConditionStatus::True => "True"@,
            ConditionStatus::False => "False"@,
            ConditionStatus::Unknown => "Unknown"@,
        }
    }

    /// The status's name.
    pub fn as_str(&self) -> (r: &'static str)
        ensures
            r@ == self.name(),
    {
        match self {
            ConditionStatus::True => "True",
            ConditionStatus::False => "False",
            ConditionStatus::Unknown => "Unknown",
        }
    }
}

#[derive(Debug)]
pub struct NiphasWorkloadStatus {
    pub observed_generation: Option<i64>,
    pub phase: WorkloadPhase,
    pub store_path: Option<String>,
    pub resolved_command: Option<String>,
    pub closure_paths: Option<Vec<String>>,
    pub last_eval: Option<String>,
    pub ready_replicas: Option<i32>,
    pub conditions: Option<Vec<NiphasCondition>>,
    pub architectures: Option<Vec<ArchStatus>>,
}

/// Per-architecture status for multi-arch workloads.
#[derive(Debug)]
pub struct ArchStatus {
    pub arch: String,
    pub store_path: String,
    pub resolved_command: Option<String>,
    pub closure_paths: Option<Vec<String>>,
    pub ready_replicas: Option<i32>,
}

/// A condition as values.
pub struct ConditionV {
    pub type_: Seq<char>,
    pub status: ConditionStatus,
    pub reason: Seq<char>,
    pub message: Seq<char>,
    pub last_transition_time: Seq<char>,
    pub observed_generation: Option<i64>,
}

impl NiphasCondition {
    /// The condition as values.
    pub open spec fn view(self) -> ConditionV {
        ConditionV {
            type_: self.type_@,
            status: self.status,
            reason: self.reason@,
            message: self.message@,
            last_transition_time: self.last_transition_time@,
            observed_generation: self.observed_generation,
        }
    }
}

impl Clone for NiphasCondition {
    fn clone(&self) -> (r: Self)
        ensures
            r.view() == self.view(),
    {
        NiphasCondition {
            type_: copy_string(&self.type_),
            status: self.status,
            reason: copy_string(&self.reason),
            message: copy_string(&self.message),
            last_transition_time: copy_string(&self.last_transition_time),
            observed_generation: self.observed_generation,
        }
    }
}

fn copy_string(s: &String) -> (r: String)
    ensures
        r@ == s@,
{
    let mut r = String::new();
    crate::text::push_str(&mut r, s.as_str());
    r
}

#[derive(Debug)]
pub struct NiphasCondition {
    /// Condition type: Evaluated, ClosureCached, Available, Progressing, Degraded.
    pub type_: String,
    pub status: ConditionStatus,
    /// Machine-readable reason: EvalSucceeded, NarFetchFailed, ReplicasReady, etc.
    pub reason: String,
    /// Human-readable message.
    pub message: String,
    /// When this condition last transitioned (ISO 8601).
    pub last_transition_time: String,
    /// The generation this condition was set at.
    pub observed_generation: Option<i64>,
}

} // verus!
