use niphas::crd::{
    NiphasIngressHost, NiphasIngressPath, NiphasIngressSpec, NiphasIngressTls, NiphasServicePort,
    NiphasServiceSpec, NiphasWorkload, NiphasWorkloadSpec, WorkloadMeta,
};
use niphas::eval::EvalResponse;
use niphas::json::Json;
use niphas::resources::{
    build_deployment, build_ingress, build_pdb, build_service, child_resources, owner_reference, ChildKind,
};

/// A view into a JSON value that compares with plain Rust values.
#[derive(Debug, Clone, Copy)]
struct V<'a>(&'a Json);

static NULL: Json = Json::Null;

trait AsJson {
    fn json(&self) -> &Json;
}

impl AsJson for Json {
    fn json(&self) -> &Json {
        self
    }
}

impl<'a> AsJson for V<'a> {
    fn json(&self) -> &Json {
        self.0
    }
}

impl<T: AsJson + ?Sized> AsJson for &T {
    fn json(&self) -> &Json {
        (**self).json()
    }
}

fn at<'a, T: AsJson + ?Sized>(x: &'a T, path: &[&str]) -> V<'a> {
    let mut cur: &'a Json = x.json();
    for k in path {
        cur = match cur {
            Json::Obj(members) => match members.iter().find(|m| m.key == *k) {
                Some(m) => &m.value,
                None => &NULL,
            },
            _ => &NULL,
        };
    }
    V(cur)
}

impl<'a> V<'a> {
    fn as_array(&self) -> Option<Vec<V<'a>>> {
        match self.0 {
            Json::Arr(items) => Some(items.iter().map(V).collect()),
            _ => None,
        }
    }

    fn is_null(&self) -> bool {
        matches!(self.0, Json::Null)
    }
}

impl<'a> PartialEq<&str> for V<'a> {
    fn eq(&self, other: &&str) -> bool {
        matches!(self.0, Json::Str(s) if s == other)
    }
}

impl<'a> PartialEq<i32> for V<'a> {
    fn eq(&self, other: &i32) -> bool {
        matches!(self.0, Json::Int(n) if *n == *other as i64)
    }
}

impl<'a> PartialEq<bool> for V<'a> {
    fn eq(&self, other: &bool) -> bool {
        matches!(self.0, Json::Bool(b) if b == other)
    }
}


fn test_workload(name: &str) -> NiphasWorkload {
    NiphasWorkload {
        metadata: WorkloadMeta {
            name: Some(name.to_string()),
            generate_name: None,
            namespace: Some("default".to_string()),
            uid: Some("test-uid-1234".to_string()),
            generation: None,
            deletion_pending: false,
            finalizers: None,
        },
        spec: NiphasWorkloadSpec {
            flake_ref: "github:test/app".into(),
            attribute: "packages.x86_64-linux.default".into(),
            revision: None,
            replicas: Some(1),
            binary_cache: None,
            command: None,
            args: None,
            env: None,
            ports: None,
            resources: None,
            liveness_probe: None,
            readiness_probe: None,
            startup_probe: None,
            node_selector: None,
            tolerations: None,
            affinity: None,
            service: None,
            ingress: None,
            extra_volumes: None,
            extra_volume_mounts: None,
            architectures: None,
        },
        status: None,
    }
}

fn test_eval_result() -> EvalResponse {
    EvalResponse {
        store_path: "/nix/store/abc123-myapp-1.0.0".into(),
        name: "myapp-1.0.0".into(),
        main_program: Some("myapp".into()),
        closure_paths: vec![
            "/nix/store/abc123-myapp-1.0.0".into(),
            "/nix/store/def456-glibc-2.37".into(),
        ],
    }
}

#[test]
fn test_build_deployment_basic() {
    let workload = test_workload("myapp");
    let eval = test_eval_result();
    let dep = build_deployment(&workload, &eval, "myapp", "default");

    assert_eq!(at(&dep, &["apiVersion"]), "apps/v1");
    assert_eq!(at(&dep, &["kind"]), "Deployment");
    assert_eq!(at(&dep, &["spec", "replicas"]), 1);
    assert_eq!(at(&dep, &["metadata", "name"]), "myapp");
    assert_eq!(at(&dep, &["metadata", "namespace"]), "default");

    // Check CSI volume
    let volumes = at(&dep, &["spec", "template", "spec", "volumes"])
        .as_array()
        .unwrap();
    assert_eq!(at(&volumes[0], &["csi", "driver"]), "niphas.io.csi");
    assert_eq!(
        at(&volumes[0], &["csi", "volumeAttributes", "storePath"]),
        "/nix/store/abc123-myapp-1.0.0",
        "storePath must be passed in volumeAttributes"
    );
    assert_eq!(
        at(&volumes[0], &["csi", "volumeAttributes", "closurePaths"]),
        "/nix/store/abc123-myapp-1.0.0,/nix/store/def456-glibc-2.37"
    );

    // Check nodeSelector includes niphas.io/store=true
    let ns = &at(&dep, &["spec", "template", "spec", "nodeSelector"]);
    assert_eq!(at(&ns, &["niphas.io/store"]), "true");

    // Check command resolves to main_program
    let containers = at(&dep, &["spec", "template", "spec", "containers"])
        .as_array()
        .unwrap();
    let cmd = at(&containers[0], &["command"]).as_array().unwrap();
    assert_eq!(cmd[0], "/nix/store/abc123-myapp-1.0.0/bin/myapp");
}

#[test]
fn test_build_deployment_topology_spread_multi_replica() {
    let mut workload = test_workload("myapp");
    workload.spec.replicas = Some(3);
    let eval = test_eval_result();
    let dep = build_deployment(&workload, &eval, "myapp", "default");

    assert_eq!(at(&dep, &["spec", "replicas"]), 3);
    let tsc = at(&dep, &["spec", "template", "spec", "topologySpreadConstraints"])
        .as_array()
        .expect("should have topologySpreadConstraints for replicas >= 2");
    assert_eq!(tsc.len(), 2);
    assert_eq!(at(&tsc[0], &["topologyKey"]), "kubernetes.io/hostname");
    assert_eq!(at(&tsc[1], &["topologyKey"]), "topology.kubernetes.io/zone");
}

#[test]
fn test_build_deployment_no_topology_single() {
    let workload = test_workload("myapp");
    let eval = test_eval_result();
    let dep = build_deployment(&workload, &eval, "myapp", "default");

    assert!(
        at(&dep, &["spec", "template", "spec", "topologySpreadConstraints"]).is_null(),
        "single replica should not have topologySpreadConstraints"
    );
}

#[test]
fn test_build_deployment_custom_command() {
    let mut workload = test_workload("myapp");
    workload.spec.command = Some(vec!["/custom/bin".into(), "--flag".into()]);
    let eval = test_eval_result();
    let dep = build_deployment(&workload, &eval, "myapp", "default");

    let containers = at(&dep, &["spec", "template", "spec", "containers"])
        .as_array()
        .unwrap();
    let cmd = at(&containers[0], &["command"]).as_array().unwrap();
    assert_eq!(cmd[0], "/custom/bin");
    assert_eq!(cmd[1], "--flag");
}

#[test]
fn test_build_deployment_owner_ref() {
    let workload = test_workload("myapp");
    let eval = test_eval_result();
    let dep = build_deployment(&workload, &eval, "myapp", "default");

    let refs = at(&dep, &["metadata", "ownerReferences"]).as_array().unwrap();
    assert_eq!(refs.len(), 1);
    assert_eq!(at(&refs[0], &["apiVersion"]), "niphas.io/v1alpha1");
    assert_eq!(at(&refs[0], &["kind"]), "NiphasWorkload");
    assert_eq!(at(&refs[0], &["controller"]), true);
    assert_eq!(at(&refs[0], &["uid"]), "test-uid-1234");
}

#[test]
fn test_build_service_cluster_ip() {
    let mut workload = test_workload("myapp");
    workload.spec.service = Some(NiphasServiceSpec {
        type_: None,
        ports: vec![NiphasServicePort {
            name: Some("http".into()),
            port: 80,
            target_port: Some("8080".into()),
            protocol: None,
        }],
    });

    let svc = build_service(&workload, "myapp", "default");
    assert_eq!(at(&svc, &["spec", "type"]), "ClusterIP");
    assert_eq!(at(&svc, &["spec", "selector", "niphas.io/workload"]), "myapp");

    let ports = at(&svc, &["spec", "ports"]).as_array().unwrap();
    assert_eq!(at(&ports[0], &["port"]), 80);
    assert_eq!(at(&ports[0], &["targetPort"]), 8080);
    assert_eq!(at(&ports[0], &["name"]), "http");
}

#[test]
fn test_build_ingress_with_tls() {
    let mut workload = test_workload("myapp");
    workload.spec.ingress = Some(NiphasIngressSpec {
        enabled: true,
        class_name: Some("nginx".into()),
        hosts: Some(vec![NiphasIngressHost {
            host: "app.example.com".into(),
            paths: vec![NiphasIngressPath {
                path: "/".into(),
                path_type: None,
                port: "80".into(),
            }],
        }]),
        tls: Some(vec![NiphasIngressTls {
            secret_name: "app-tls".into(),
            hosts: vec!["app.example.com".into()],
        }]),
    });

    let ing = build_ingress(&workload, "myapp", "default");
    assert_eq!(at(&ing, &["spec", "ingressClassName"]), "nginx");

    let tls = at(&ing, &["spec", "tls"]).as_array().unwrap();
    assert_eq!(tls.len(), 1);
    assert_eq!(at(&tls[0], &["secretName"]), "app-tls");

    let rules = at(&ing, &["spec", "rules"]).as_array().unwrap();
    assert_eq!(at(&rules[0], &["host"]), "app.example.com");
}

#[test]
fn test_build_pdb() {
    let workload = test_workload("myapp");
    let pdb = build_pdb(&workload, "myapp", "default");

    assert_eq!(at(&pdb, &["metadata", "name"]), "myapp-pdb");
    assert_eq!(at(&pdb, &["spec", "maxUnavailable"]), 1);
    assert_eq!(
        at(&pdb, &["spec", "selector", "matchLabels", "niphas.io/workload"]),
        "myapp"
    );
}

#[test]
fn test_owner_reference_shape() {
    let workload = test_workload("myapp");
    let oref = owner_reference(&workload);

    assert_eq!(at(&oref, &["apiVersion"]), "niphas.io/v1alpha1");
    assert_eq!(at(&oref, &["kind"]), "NiphasWorkload");
    assert_eq!(at(&oref, &["name"]), "myapp");
    assert_eq!(at(&oref, &["controller"]), true);
    assert_eq!(at(&oref, &["blockOwnerDeletion"]), true);
}

// -- EvalResponse tests --

#[test]
fn test_resolved_command_with_main_program() {
    let eval = EvalResponse {
        store_path: "/nix/store/abc-hello-2.12.1".into(),
        name: "hello-2.12.1".into(),
        main_program: Some("hello".into()),
        closure_paths: vec![],
    };
    assert_eq!(
        eval.resolved_command(),
        "/nix/store/abc-hello-2.12.1/bin/hello"
    );
}

#[test]
fn test_resolved_command_without_main_program() {
    let eval = EvalResponse {
        store_path: "/nix/store/abc-hello-2.12.1".into(),
        name: "hello-2.12.1".into(),
        main_program: None,
        closure_paths: vec![],
    };
    assert_eq!(
        eval.resolved_command(),
        "/nix/store/abc-hello-2.12.1/bin/hello-2.12.1"
    );
}

// -- own tests --

#[test]
fn deployment_volume_and_mount_shape() {
    let workload = test_workload("myapp");
    let eval = test_eval_result();
    let dep = build_deployment(&workload, &eval, "myapp", "default");
    let volumes = at(&dep, &["spec", "template", "spec", "volumes"]).as_array().unwrap();
    assert_eq!(at(&volumes[0], &["name"]), "nix-store");
    let containers = at(&dep, &["spec", "template", "spec", "containers"]).as_array().unwrap();
    let mounts = at(&containers[0], &["volumeMounts"]).as_array().unwrap();
    assert_eq!(at(&mounts[0], &["readOnly"]), true);
    assert_eq!(at(&mounts[0], &["mountPath"]), "/nix/store");
    assert_eq!(at(&containers[0], &["image"]), niphas::resources::RUNNER_IMAGE);
    assert_eq!(at(&dep, &["metadata", "labels", "niphas.io/workload"]), "myapp");
}

#[test]
fn service_defaults_protocol_and_name_port() {
    let mut workload = test_workload("myapp");
    workload.spec.service = Some(NiphasServiceSpec {
        type_: Some("NodePort".into()),
        ports: vec![NiphasServicePort {
            name: None,
            port: 443,
            target_port: Some("https".into()),
            protocol: None,
        }],
    });
    let svc = build_service(&workload, "myapp", "default");
    assert_eq!(at(&svc, &["spec", "type"]), "NodePort");
    let ports = at(&svc, &["spec", "ports"]).as_array().unwrap();
    assert_eq!(at(&ports[0], &["targetPort"]), "https");
    assert_eq!(at(&ports[0], &["protocol"]), "TCP");
}

#[test]
fn children_in_apply_order() {
    let mut workload = test_workload("myapp");
    let eval = test_eval_result();
    let only = child_resources(&workload, &eval, "myapp", "default");
    assert_eq!(only.len(), 1);
    assert_eq!(only[0].0, ChildKind::Deployment);
    assert_eq!(only[0].1, "myapp");
    assert_eq!(at(&only[0].2, &["kind"]), "Deployment");

    workload.spec.replicas = Some(3);
    workload.spec.service = Some(NiphasServiceSpec {
        type_: None,
        ports: vec![NiphasServicePort { name: None, port: 80, target_port: None, protocol: None }],
    });
    let all = child_resources(&workload, &eval, "myapp", "default");
    let kinds: Vec<(String, String)> = all
        .iter()
        .map(|(_, n, j)| {
            let k = match at(j, &["kind"]).0 {
                Json::Str(s) => s.clone(),
                _ => String::new(),
            };
            (n.clone(), k)
        })
        .collect();
    let tags: Vec<ChildKind> = all.iter().map(|(k, _, _)| *k).collect();
    assert_eq!(tags, vec![ChildKind::Deployment, ChildKind::Service, ChildKind::PodDisruptionBudget]);
    assert_eq!(
        kinds,
        vec![
            ("myapp".to_string(), "Deployment".to_string()),
            ("myapp".to_string(), "Service".to_string()),
            ("myapp-pdb".to_string(), "PodDisruptionBudget".to_string()),
        ]
    );
}
