use vstd::prelude::*;
use crate::crd::{NiphasIngressSpec, NiphasServiceSpec, NiphasWorkload};
use crate::eval::{resolved_command_text, EvalResponse};
use crate::json::{
    append_copies, arr_view, json_copy, jstr, jstr_array, lemma_arr_view_push, obj_insert, obj_set,
    obj_view, push_member, single, str_array, views, Json, JsonV, Member, first_member, member_of,
    lemma_first_member_concat,
};
use crate::narinfo::join;
use crate::text::{chars_of, parse_i32, parse_i32_spec, push_str};

verus! {

/// The image every workload runs in.
pub const RUNNER_IMAGE: &'static str = "ghcr.io/fullzer4/niphas-runner:latest";

/// The most useful name of a workload: its name, else its generated name, else empty.
pub open spec fn name_any(w: &NiphasWorkload) -> Seq<char> {
    match w.metadata.name {
        Some(n) => n@,
        None => match w.metadata.generate_name {
            Some(n) => n@,
            None => Seq::empty(),
        },
    }
}

fn name_any_of(w: &NiphasWorkload) -> (r: String)
    ensures
        r@ == name_any(w),
{
    let mut r = String::new();
    match &w.metadata.name {
        Some(n) => push_str(&mut r, n.as_str()),
        None => match &w.metadata.generate_name {
            Some(n) => push_str(&mut r, n.as_str()),
            None => {},
        },
    }
    proof {
        assert(r@ =~= name_any(w));
    }
    r
}

/// `ownerReferences` entry that makes the workload own (and control) a child.
pub open spec fn owner_reference_json(w: &NiphasWorkload) -> JsonV {
    JsonV::Obj(
        seq![
            ("apiVersion"@, JsonV::Str("niphas.io/v1alpha1"@)),
            ("kind"@, JsonV::Str("NiphasWorkload"@)),
            ("name"@, JsonV::Str(name_any(w))),
            ("uid"@, JsonV::Str(match w.metadata.uid {
                Some(u) => u@,
                None => ""@,
            })),
            ("controller"@, JsonV::Bool(true)),
            ("blockOwnerDeletion"@, JsonV::Bool(true)),
        ],
    )
}

fn empty_obj() -> (m: Vec<Member>)
    ensures
        obj_view(m@) == Seq::<(Seq<char>, JsonV)>::empty(),
{
    let m: Vec<Member> = Vec::new();
    proof {
        assert(obj_view(m@) =~= Seq::<(Seq<char>, JsonV)>::empty());
    }
    m
}

fn empty_arr() -> (v: Vec<Json>)
    ensures
        arr_view(v@) == Seq::<JsonV>::empty(),
{
    let v: Vec<Json> = Vec::new();
    proof {
        assert(arr_view(v@) =~= Seq::<JsonV>::empty());
    }
    v
}

fn push_item(v: &mut Vec<Json>, x: Json)
    ensures
        arr_view(final(v)@) == arr_view(old(v)@).push(x.view()),
{
    proof {
        lemma_arr_view_push(v@, x);
    }
    v.push(x);
}

/// The owner reference that ties a child resource to its workload.
pub fn owner_reference(workload: &NiphasWorkload) -> (r: Json)
    ensures
        r.view() == owner_reference_json(workload),
{
    let mut m = empty_obj();
    push_member(&mut m, "apiVersion", jstr("niphas.io/v1alpha1"));
    push_member(&mut m, "kind", jstr("NiphasWorkload"));
    let n = name_any_of(workload);
    push_member(&mut m, "name", jstr(n.as_str()));
    let uid = match &workload.metadata.uid {
        Some(u) => jstr(u.as_str()),
        None => jstr(""),
    };
    push_member(&mut m, "uid", uid);
    push_member(&mut m, "controller", Json::Bool(true));
    push_member(&mut m, "blockOwnerDeletion", Json::Bool(true));
    proof {
        assert(obj_view(m@) =~= match owner_reference_json(workload) {
            JsonV::Obj(x) => x,
            _ => Seq::empty(),
        });
    }
    Json::Obj(m)
}

/// The labels every child carries.
pub open spec fn labels_json(name: Seq<char>) -> JsonV {
    JsonV::Obj(
        seq![
            ("niphas.io/workload"@, JsonV::Str(name)),
            ("niphas.io/managed-by"@, JsonV::Str("niphas-operator"@)),
        ],
    )
}

fn labels(name: &str) -> (r: Json)
    ensures
        r.view() == labels_json(name@),
{
    let mut m = empty_obj();
    push_member(&mut m, "niphas.io/workload", jstr(name));
    push_member(&mut m, "niphas.io/managed-by", jstr("niphas-operator"));
    proof {
        assert(obj_view(m@) =~= seq![
            ("niphas.io/workload"@, JsonV::Str(name@)),
            ("niphas.io/managed-by"@, JsonV::Str("niphas-operator"@)),
        ]);
    }
    Json::Obj(m)
}

/// `{"matchLabels": {"niphas.io/workload": name}}`.
pub open spec fn selector_json(name: Seq<char>) -> JsonV {
    JsonV::Obj(
        seq![("matchLabels"@, JsonV::Obj(seq![("niphas.io/workload"@, JsonV::Str(name))]))],
    )
}

fn selector(name: &str) -> (r: Json)
    ensures
        r.view() == selector_json(name@),
{
    single("matchLabels", single("niphas.io/workload", jstr(name)))
}

/// The metadata of a child: its name and namespace, the owner reference and the labels.
pub open spec fn child_metadata_json(
    w: &NiphasWorkload,
    object_name: Seq<char>,
    ns: Seq<char>,
    name: Seq<char>,
) -> JsonV {
    JsonV::Obj(
        seq![
            ("name"@, JsonV::Str(object_name)),
            ("namespace"@, JsonV::Str(ns)),
            ("ownerReferences"@, JsonV::Arr(seq![owner_reference_json(w)])),
            ("labels"@, labels_json(name)),
        ],
    )
}

fn child_metadata(w: &NiphasWorkload, object_name: &str, ns: &str, name: &str) -> (r: Json)
    ensures
        r.view() == child_metadata_json(w, object_name@, ns@, name@),
{
    let mut m = empty_obj();
    push_member(&mut m, "name", jstr(object_name));
    push_member(&mut m, "namespace", jstr(ns));
    let mut refs = empty_arr();
    push_item(&mut refs, owner_reference(w));
    push_member(&mut m, "ownerReferences", Json::Arr(refs));
    push_member(&mut m, "labels", labels(name));
    proof {
        assert(obj_view(m@) =~= match child_metadata_json(w, object_name@, ns@, name@) {
            JsonV::Obj(x) => x,
            _ => Seq::empty(),
        });
    }
    Json::Obj(m)
}

/// `{"apiVersion", "kind", "metadata", "spec"}` of a child.
pub open spec fn manifest_json(api: Seq<char>, kind: Seq<char>, metadata: JsonV, spec: JsonV) -> JsonV {
    JsonV::Obj(
        seq![
            ("apiVersion"@, JsonV::Str(api)),
            ("kind"@, JsonV::Str(kind)),
            ("metadata"@, metadata),
            ("spec"@, spec),
        ],
    )
}

fn manifest(api: &str, kind: &str, metadata: Json, spec: Json) -> (r: Json)
    ensures
        r.view() == manifest_json(api@, kind@, metadata.view(), spec.view()),
{
    let ghost mv = metadata.view();
    let ghost sv = spec.view();
    let mut m = empty_obj();
    push_member(&mut m, "apiVersion", jstr(api));
    push_member(&mut m, "kind", jstr(kind));
    push_member(&mut m, "metadata", metadata);
    push_member(&mut m, "spec", spec);
    proof {
        assert(obj_view(m@) =~= match manifest_json(api@, kind@, mv, sv) {
            JsonV::Obj(x) => x,
            _ => Seq::empty(),
        });
    }
    Json::Obj(m)
}

// ---------------------------------------------------------------------------
// PodDisruptionBudget
// ---------------------------------------------------------------------------

/// The PodDisruptionBudget of a workload: at most one pod unavailable.
pub open spec fn pdb_json(w: &NiphasWorkload, name: Seq<char>, ns: Seq<char>) -> JsonV {
    manifest_json(
        "policy/v1"@,
        "PodDisruptionBudget"@,
        child_metadata_json(w, name + "-pdb"@, ns, name),
        JsonV::Obj(
            seq![
                ("maxUnavailable"@, JsonV::Int(1)),
                ("selector"@, selector_json(name)),
                ("unhealthyPodEvictionPolicy"@, JsonV::Str("AlwaysAllow"@)),
            ],
        ),
    )
}

/// The PodDisruptionBudget of a workload, named `<name>-pdb`.
pub fn build_pdb(workload: &NiphasWorkload, name: &str, ns: &str) -> (r: Json)
    ensures
        r.view() == pdb_json(workload, name@, ns@),
{
    let mut pdb_name = String::new();
    push_str(&mut pdb_name, name);
    push_str(&mut pdb_name, "-pdb");
    let mut spec = empty_obj();
    push_member(&mut spec, "maxUnavailable", Json::Int(1));
    push_member(&mut spec, "selector", selector(name));
    push_member(&mut spec, "unhealthyPodEvictionPolicy", jstr("AlwaysAllow"));
    let ghost sv = obj_view(spec@);
    proof {
        assert(sv =~= seq![
            ("maxUnavailable"@, JsonV::Int(1)),
            ("selector"@, selector_json(name@)),
            ("unhealthyPodEvictionPolicy"@, JsonV::Str("AlwaysAllow"@)),
        ]);
    }
    manifest(
        "policy/v1",
        "PodDisruptionBudget",
        child_metadata(workload, pdb_name.as_str(), ns, name),
        Json::Obj(spec),
    )
}

// ---------------------------------------------------------------------------
// Service
// ---------------------------------------------------------------------------

/// A target port: a number when the text parses as one, else the name.
pub open spec fn target_port_json(tp: Seq<char>) -> JsonV {
    match parse_i32_spec(tp) {
        Some(n) => JsonV::Int(n as int),
        None => JsonV::Str(tp),
    }
}

/// One port of a Service.
pub open spec fn service_port_json(p: crate::crd::NiphasServicePort) -> JsonV {
    JsonV::Obj(
        seq![
            ("port"@, JsonV::Int(p.port as int)),
            ("protocol"@, JsonV::Str(match p.protocol {
                Some(x) => x@,
                None => "TCP"@,
            })),
        ] + match p.name {
            Some(n) => seq![("name"@, JsonV::Str(n@))],
            None => Seq::empty(),
        } + match p.target_port {
            Some(t) => seq![("targetPort"@, target_port_json(t@))],
            None => Seq::empty(),
        },
    )
}

/// The Service of a workload that asks for one.
pub open spec fn service_json(w: &NiphasWorkload, svc: &NiphasServiceSpec, name: Seq<char>, ns: Seq<char>) -> JsonV {
    manifest_json(
        "v1"@,
        "Service"@,
        child_metadata_json(w, name, ns, name),
        JsonV::Obj(
            seq![
                ("type"@, JsonV::Str(match svc.type_ {
                    Some(t) => t@,
                    None => "ClusterIP"@,
                })),
                ("selector"@, JsonV::Obj(seq![("niphas.io/workload"@, JsonV::Str(name))])),
                ("ports"@, JsonV::Arr(
                    Seq::new(svc.ports@.len(), |i: int| service_port_json(svc.ports@[i])),
                )),
            ],
        ),
    )
}

fn text_json(s: &str) -> (r: Json)
    ensures
        r.view() == target_port_json(s@),
{
    let v = chars_of(s);
    let n = parse_i32(&v, 0, v.len());
    proof {
        assert(v@.subrange(0, v@.len() as int) =~= s@);
    }
    match n {
        Some(x) => Json::Int(x as i64),
        None => jstr(s),
    }
}

fn service_port(p: &crate::crd::NiphasServicePort) -> (r: Json)
    ensures
        r.view() == service_port_json(*p),
{
    let mut m = empty_obj();
    push_member(&mut m, "port", Json::Int(p.port as i64));
    let proto = match &p.protocol {
        Some(x) => jstr(x.as_str()),
        None => jstr("TCP"),
    };
    push_member(&mut m, "protocol", proto);
    match &p.name {
        Some(n) => push_member(&mut m, "name", jstr(n.as_str())),
        None => {},
    }
    match &p.target_port {
        Some(t) => push_member(&mut m, "targetPort", text_json(t.as_str())),
        None => {},
    }
    proof {
        assert(obj_view(m@) =~= match service_port_json(*p) {
            JsonV::Obj(x) => x,
            _ => Seq::empty(),
        });
    }
    Json::Obj(m)
}

/// The Service of a workload that asks for one.
pub fn build_service(workload: &NiphasWorkload, name: &str, ns: &str) -> (r: Json)
    requires
        workload.spec.service is Some,
    ensures
        r.view() == service_json(workload, &workload.spec.service.unwrap(), name@, ns@),
{
    let svc = match &workload.spec.service {
        Some(s) => s,
        None => {
            proof {
                assert(false);
            }
            return Json::Null;
        },
    };
    let mut ports = empty_arr();
    let mut i: usize = 0;
    while i < svc.ports.len()
        invariant
            i <= svc.ports@.len(),
            arr_view(ports@) == Seq::new(i as nat, |k: int| service_port_json(svc.ports@[k])),
        decreases svc.ports@.len() - i,
    {
        push_item(&mut ports, service_port(&svc.ports[i]));
        proof {
            assert(arr_view(ports@) =~= Seq::new((i + 1) as nat, |k: int| service_port_json(svc.ports@[k])));
        }
        i += 1;
    }
    let svc_type = match &svc.type_ {
        Some(t) => jstr(t.as_str()),
        None => jstr("ClusterIP"),
    };
    let mut spec = empty_obj();
    push_member(&mut spec, "type", svc_type);
    push_member(&mut spec, "selector", single("niphas.io/workload", jstr(name)));
    push_member(&mut spec, "ports", Json::Arr(ports));
    let ghost sv = obj_view(spec@);
    proof {
        assert(sv =~= match service_json(workload, svc, name@, ns@) {
            JsonV::Obj(x) => match x[3].1 {
                JsonV::Obj(y) => y,
                _ => Seq::empty(),
            },
            _ => Seq::empty(),
        });
    }
    manifest("v1", "Service", child_metadata(workload, name, ns, name), Json::Obj(spec))
}

// ---------------------------------------------------------------------------
// Ingress
// ---------------------------------------------------------------------------

/// The backend port of an ingress path: by number when the text parses as one, else by
/// name.
pub open spec fn backend_port_json(port: Seq<char>) -> JsonV {
    match parse_i32_spec(port) {
        Some(n) => JsonV::Obj(seq![("number"@, JsonV::Int(n as int))]),
        None => JsonV::Obj(seq![("name"@, JsonV::Str(port))]),
    }
}

/// One path of an ingress rule, routed to the workload's Service.
pub open spec fn ingress_path_json(p: crate::crd::NiphasIngressPath, name: Seq<char>) -> JsonV {
    JsonV::Obj(
        seq![
            ("path"@, JsonV::Str(p.path@)),
            ("pathType"@, JsonV::Str(match p.path_type {
                Some(t) => t@,
                None => "Prefix"@,
            })),
            ("backend"@, JsonV::Obj(
                seq![("service"@, JsonV::Obj(
                    seq![("name"@, JsonV::Str(name)), ("port"@, backend_port_json(p.port@))],
                ))],
            )),
        ],
    )
}

/// One host rule of an ingress.
pub open spec fn ingress_rule_json(h: crate::crd::NiphasIngressHost, name: Seq<char>) -> JsonV {
    JsonV::Obj(
        seq![
            ("host"@, JsonV::Str(h.host@)),
            ("http"@, JsonV::Obj(
                seq![("paths"@, JsonV::Arr(
                    Seq::new(h.paths@.len(), |i: int| ingress_path_json(h.paths@[i], name)),
                ))],
            )),
        ],
    )
}

/// One TLS entry of an ingress.
pub open spec fn ingress_tls_json(t: crate::crd::NiphasIngressTls) -> JsonV {
    JsonV::Obj(
        seq![
            ("hosts"@, str_array(Seq::new(t.hosts@.len(), |i: int| t.hosts@[i]@))),
            ("secretName"@, JsonV::Str(t.secret_name@)),
        ],
    )
}

/// The spec of an ingress.
pub open spec fn ingress_spec_members(ing: &NiphasIngressSpec, name: Seq<char>) -> Seq<(Seq<char>, JsonV)> {
    (match ing.class_name {
        Some(c) => seq![("ingressClassName"@, JsonV::Str(c@))],
        None => Seq::empty(),
    }) + (match ing.hosts {
        Some(hs) => seq![("rules"@, JsonV::Arr(
            Seq::new(hs@.len(), |i: int| ingress_rule_json(hs@[i], name)),
        ))],
        None => Seq::empty(),
    }) + (match ing.tls {
        Some(ts) => seq![("tls"@, JsonV::Arr(
            Seq::new(ts@.len(), |i: int| ingress_tls_json(ts@[i])),
        ))],
        None => Seq::empty(),
    })
}

/// The Ingress of a workload that asks for one.
pub open spec fn ingress_json(w: &NiphasWorkload, ing: &NiphasIngressSpec, name: Seq<char>, ns: Seq<char>) -> JsonV {
    manifest_json(
        "networking.k8s.io/v1"@,
        "Ingress"@,
        child_metadata_json(w, name, ns, name),
        JsonV::Obj(ingress_spec_members(ing, name)),
    )
}

fn backend_port(port: &str) -> (r: Json)
    ensures
        r.view() == backend_port_json(port@),
{
    let v = chars_of(port);
    let n = parse_i32(&v, 0, v.len());
    proof {
        assert(v@.subrange(0, v@.len() as int) =~= port@);
    }
    match n {
        Some(x) => single("number", Json::Int(x as i64)),
        None => single("name", jstr(port)),
    }
}

fn ingress_path(p: &crate::crd::NiphasIngressPath, name: &str) -> (r: Json)
    ensures
        r.view() == ingress_path_json(*p, name@),
{
    let mut svc = empty_obj();
    push_member(&mut svc, "name", jstr(name));
    push_member(&mut svc, "port", backend_port(p.port.as_str()));
    let ghost sv = obj_view(svc@);
    let mut m = empty_obj();
    push_member(&mut m, "path", jstr(p.path.as_str()));
    let pt = match &p.path_type {
        Some(t) => jstr(t.as_str()),
        None => jstr("Prefix"),
    };
    push_member(&mut m, "pathType", pt);
    push_member(&mut m, "backend", single("service", Json::Obj(svc)));
    proof {
        assert(sv =~= seq![("name"@, JsonV::Str(name@)), ("port"@, backend_port_json(p.port@))]);
        assert(obj_view(m@) =~= match ingress_path_json(*p, name@) {
            JsonV::Obj(x) => x,
            _ => Seq::empty(),
        });
    }
    Json::Obj(m)
}

fn ingress_rule(h: &crate::crd::NiphasIngressHost, name: &str) -> (r: Json)
    ensures
        r.view() == ingress_rule_json(*h, name@),
{
    let mut paths = empty_arr();
    let mut i: usize = 0;
    while i < h.paths.len()
        invariant
            i <= h.paths@.len(),
            arr_view(paths@) == Seq::new(i as nat, |k: int| ingress_path_json(h.paths@[k], name@)),
        decreases h.paths@.len() - i,
    {
        push_item(&mut paths, ingress_path(&h.paths[i], name));
        proof {
            assert(arr_view(paths@) =~= Seq::new((i + 1) as nat, |k: int| ingress_path_json(h.paths@[k], name@)));
        }
        i += 1;
    }
    let mut m = empty_obj();
    push_member(&mut m, "host", jstr(h.host.as_str()));
    push_member(&mut m, "http", single("paths", Json::Arr(paths)));
    proof {
        assert(obj_view(m@) =~= match ingress_rule_json(*h, name@) {
            JsonV::Obj(x) => x,
            _ => Seq::empty(),
        });
    }
    Json::Obj(m)
}

fn ingress_tls(t: &crate::crd::NiphasIngressTls) -> (r: Json)
    ensures
        r.view() == ingress_tls_json(*t),
{
    let mut m = empty_obj();
    push_member(&mut m, "hosts", jstr_array(&t.hosts));
    push_member(&mut m, "secretName", jstr(t.secret_name.as_str()));
    proof {
        assert(obj_view(m@) =~= match ingress_tls_json(*t) {
            JsonV::Obj(x) => x,
            _ => Seq::empty(),
        });
    }
    Json::Obj(m)
}

/// The Ingress of a workload that asks for one.
pub fn build_ingress(workload: &NiphasWorkload, name: &str, ns: &str) -> (r: Json)
    requires
        workload.spec.ingress is Some,
    ensures
        r.view() == ingress_json(workload, &workload.spec.ingress.unwrap(), name@, ns@),
{
    let ing = match &workload.spec.ingress {
        Some(i) => i,
        None => {
            proof {
                assert(false);
            }
            return Json::Null;
        },
    };
    let mut spec = empty_obj();
    match &ing.class_name {
        Some(c) => push_member(&mut spec, "ingressClassName", jstr(c.as_str())),
        None => {},
    }
    let ghost after_class = obj_view(spec@);
    match &ing.hosts {
        Some(hs) => {
            let mut rules = empty_arr();
            let mut i: usize = 0;
            while i < hs.len()
                invariant
                    i <= hs@.len(),
                    arr_view(rules@) == Seq::new(i as nat, |k: int| ingress_rule_json(hs@[k], name@)),
                decreases hs@.len() - i,
            {
                push_item(&mut rules, ingress_rule(&hs[i], name));
                proof {
                    assert(arr_view(rules@) =~= Seq::new((i + 1) as nat, |k: int| ingress_rule_json(hs@[k], name@)));
                }
                i += 1;
            }
            push_member(&mut spec, "rules", Json::Arr(rules));
        },
        None => {},
    }
    let ghost after_rules = obj_view(spec@);
    match &ing.tls {
        Some(ts) => {
            let mut entries = empty_arr();
            let mut i: usize = 0;
            while i < ts.len()
                invariant
                    i <= ts@.len(),
                    arr_view(entries@) == Seq::new(i as nat, |k: int| ingress_tls_json(ts@[k])),
                decreases ts@.len() - i,
            {
                push_item(&mut entries, ingress_tls(&ts[i]));
                proof {
                    assert(arr_view(entries@) =~= Seq::new((i + 1) as nat, |k: int| ingress_tls_json(ts@[k])));
                }
                i += 1;
            }
            push_member(&mut spec, "tls", Json::Arr(entries));
        },
        None => {},
    }
    proof {
        assert(obj_view(spec@) =~= ingress_spec_members(ing, name@));
    }
    manifest(
        "networking.k8s.io/v1",
        "Ingress",
        child_metadata(workload, name, ns, name),
        Json::Obj(spec),
    )
}

// ---------------------------------------------------------------------------
// Deployment
// ---------------------------------------------------------------------------

/// How many replicas a workload asks for (1 by default).
pub open spec fn replicas_of(w: &NiphasWorkload) -> i32 {
    match w.spec.replicas {
        Some(n) => n,
        None => 1,
    }
}

/// The node selector: `niphas.io/store=true`, then the user's labels (which may replace
/// it).
pub open spec fn node_selector_members(pairs: Seq<(String, String)>) -> Seq<(Seq<char>, JsonV)>
    decreases pairs.len(),
{
    if pairs.len() == 0 {
        seq![("niphas.io/store"@, JsonV::Str("true"@))]
    } else {
        obj_set(
            node_selector_members(pairs.drop_last()),
            pairs.last().0@,
            JsonV::Str(pairs.last().1@),
        )
    }
}

/// A toleration of 30 seconds for the node condition `key`.
pub open spec fn default_toleration_json(key: Seq<char>) -> JsonV {
    JsonV::Obj(
        seq![
            ("key"@, JsonV::Str(key)),
            ("operator"@, JsonV::Str("Exists"@)),
            ("effect"@, JsonV::Str("NoExecute"@)),
            ("tolerationSeconds"@, JsonV::Int(30)),
        ],
    )
}

/// The tolerations: not-ready and unreachable for 30 seconds, then the user's.
pub open spec fn tolerations_json(w: &NiphasWorkload) -> JsonV {
    JsonV::Arr(
        seq![
            default_toleration_json("node.kubernetes.io/not-ready"@),
            default_toleration_json("node.kubernetes.io/unreachable"@),
        ] + match w.spec.tolerations {
            Some(t) => views(t@),
            None => Seq::empty(),
        },
    )
}

/// The `nix-store` volume mount, read-only at `/nix/store`.
pub open spec fn store_mount_json() -> JsonV {
    JsonV::Obj(
        seq![
            ("name"@, JsonV::Str("nix-store"@)),
            ("mountPath"@, JsonV::Str("/nix/store"@)),
            ("readOnly"@, JsonV::Bool(true)),
        ],
    )
}

/// The texts of the strings.
pub open spec fn texts_of(v: Seq<String>) -> Seq<Seq<char>> {
    Seq::new(v.len(), |i: int| v[i]@)
}

/// `key: value` when the value is there.
pub open spec fn optional_member(key: Seq<char>, v: Option<Json>) -> Seq<(Seq<char>, JsonV)> {
    match v {
        Some(j) => seq![(key, j.view())],
        None => Seq::empty(),
    }
}

/// `key: [values]` when the values are there.
pub open spec fn optional_array(key: Seq<char>, v: Option<Vec<Json>>) -> Seq<(Seq<char>, JsonV)> {
    match v {
        Some(js) => seq![(key, JsonV::Arr(views(js@)))],
        None => Seq::empty(),
    }
}

/// The container: the runner image running the command, with the store mounted.
pub open spec fn container_json(w: &NiphasWorkload, eval: EvalResponse) -> JsonV {
    JsonV::Obj(
        seq![
            ("name"@, JsonV::Str("app"@)),
            ("image"@, JsonV::Str(RUNNER_IMAGE@)),
            ("command"@, match w.spec.command {
                Some(c) => str_array(texts_of(c@)),
                None => str_array(seq![resolved_command_text(eval)]),
            }),
            ("volumeMounts"@, JsonV::Arr(seq![store_mount_json()] + match w.spec.extra_volume_mounts {
                Some(m) => views(m@),
                None => Seq::empty(),
            })),
        ] + match w.spec.args {
            Some(a) => seq![("args"@, str_array(texts_of(a@)))],
            None => Seq::empty(),
        } + optional_array("env"@, w.spec.env) + optional_array("ports"@, w.spec.ports)
            + optional_member("resources"@, w.spec.resources) + optional_member(
            "livenessProbe"@,
            w.spec.liveness_probe,
        ) + optional_member("readinessProbe"@, w.spec.readiness_probe) + optional_member(
            "startupProbe"@,
            w.spec.startup_probe,
        ),
    )
}

/// The CSI volume that mounts the closure of the evaluated store path.
pub open spec fn store_volume_json(eval: EvalResponse) -> JsonV {
    JsonV::Obj(
        seq![
            ("name"@, JsonV::Str("nix-store"@)),
            ("csi"@, JsonV::Obj(
                seq![
                    ("driver"@, JsonV::Str("niphas.io.csi"@)),
                    ("volumeAttributes"@, JsonV::Obj(
                        seq![
                            ("storePath"@, JsonV::Str(eval.store_path@)),
                            ("closurePaths"@, JsonV::Str(join(texts_of(eval.closure_paths@), ","@))),
                        ],
                    )),
                ],
            )),
        ],
    )
}

/// Spreading pods over hosts (strictly) and zones (when possible).
pub open spec fn topology_spread_json(name: Seq<char>) -> JsonV {
    JsonV::Arr(
        seq![
            JsonV::Obj(
                seq![
                    ("maxSkew"@, JsonV::Int(1)),
                    ("topologyKey"@, JsonV::Str("kubernetes.io/hostname"@)),
                    ("whenUnsatisfiable"@, JsonV::Str("DoNotSchedule"@)),
                    ("labelSelector"@, selector_json(name)),
                ],
            ),
            JsonV::Obj(
                seq![
                    ("maxSkew"@, JsonV::Int(1)),
                    ("topologyKey"@, JsonV::Str("topology.kubernetes.io/zone"@)),
                    ("whenUnsatisfiable"@, JsonV::Str("ScheduleAnyway"@)),
                    ("labelSelector"@, selector_json(name)),
                ],
            ),
        ],
    )
}

/// The pod spec of the Deployment.
pub open spec fn pod_spec_json(w: &NiphasWorkload, eval: EvalResponse, name: Seq<char>) -> JsonV {
    JsonV::Obj(
        seq![
            ("nodeSelector"@, JsonV::Obj(node_selector_members(match w.spec.node_selector {
                Some(p) => p@,
                None => Seq::empty(),
            }))),
            ("tolerations"@, tolerations_json(w)),
            ("containers"@, JsonV::Arr(seq![container_json(w, eval)])),
            ("volumes"@, JsonV::Arr(seq![store_volume_json(eval)] + match w.spec.extra_volumes {
                Some(v) => views(v@),
                None => Seq::empty(),
            })),
        ] + (if replicas_of(w) >= 2 {
            seq![("topologySpreadConstraints"@, topology_spread_json(name))]
        } else {
            Seq::empty()
        }) + optional_member("affinity"@, w.spec.affinity),
    )
}

/// The Deployment of a workload.
pub open spec fn deployment_json(w: &NiphasWorkload, eval: EvalResponse, name: Seq<char>, ns: Seq<char>) -> JsonV {
    manifest_json(
        "apps/v1"@,
        "Deployment"@,
        child_metadata_json(w, name, ns, name),
        JsonV::Obj(
            seq![
                ("replicas"@, JsonV::Int(replicas_of(w) as int)),
                ("selector"@, selector_json(name)),
                ("template"@, JsonV::Obj(
                    seq![
                        ("metadata"@, JsonV::Obj(seq![("labels"@, labels_json(name))])),
                        ("spec"@, pod_spec_json(w, eval, name)),
                    ],
                )),
            ],
        ),
    )
}

/// Where a manifest keeps its kind and its spec.
pub proof fn lemma_manifest_members(api: Seq<char>, kind: Seq<char>, metadata: JsonV, spec: JsonV)
    ensures
        member_of(manifest_json(api, kind, metadata, spec), "kind"@) == Some(JsonV::Str(kind)),
        member_of(manifest_json(api, kind, metadata, spec), "metadata"@) == Some(metadata),
        member_of(manifest_json(api, kind, metadata, spec), "spec"@) == Some(spec),
{
    reveal_with_fuel(first_member, 5);
    reveal_strlit("apiVersion");
    reveal_strlit("kind");
    reveal_strlit("metadata");
    reveal_strlit("spec");
    assert("kind"@[0] != "spec"@[0]);
    let ms = seq![
        ("apiVersion"@, JsonV::Str(api)),
        ("kind"@, JsonV::Str(kind)),
        ("metadata"@, metadata),
        ("spec"@, spec),
    ];
    assert(ms.skip(1).skip(1).skip(1) =~= seq![("spec"@, spec)]);
    assert(ms.skip(1).skip(1) =~= seq![("metadata"@, metadata), ("spec"@, spec)]);
    assert(ms.skip(1) =~= seq![("kind"@, JsonV::Str(kind)), ("metadata"@, metadata), ("spec"@, spec)]);
    assert("metadata"@.len() == 8 && "apiVersion"@.len() == 10 && "kind"@.len() == 4);
    assert(first_member(ms.skip(1).skip(1), "metadata"@) == Some(metadata));
    assert(first_member(ms.skip(1), "metadata"@) == Some(metadata));
}

/// The Deployment's spec, and the spec of its pod template.
pub open spec fn deployment_spec(d: JsonV) -> JsonV {
    member_of(d, "spec"@).unwrap()
}

/// The pod spec of a Deployment.
pub open spec fn deployment_pod(d: JsonV) -> JsonV {
    member_of(member_of(deployment_spec(d), "template"@).unwrap(), "spec"@).unwrap()
}

/// The Deployment runs the workload's replicas (1 when unset) and spreads them over hosts
/// and zones exactly when they are two or more; its pods tolerate the not-ready and
/// unreachable conditions for 30 seconds before the user's tolerations, select nodes
/// holding the store (with the user's labels set over it), mount the closure volume
/// before the user's volumes, and run one container with the user's command, or else the
/// resolved one.
pub proof fn lemma_deployment_fields(w: &NiphasWorkload, eval: EvalResponse, name: Seq<char>, ns: Seq<char>)
    ensures
        member_of(deployment_spec(deployment_json(w, eval, name, ns)), "replicas"@) == Some(
            JsonV::Int(
                match w.spec.replicas {
                    Some(n) => n as int,
                    None => 1,
                },
            ),
        ),
        member_of(pod_spec_json(w, eval, name), "topologySpreadConstraints"@) is Some <==> match w.spec.replicas {
            Some(n) => n >= 2,
            None => false,
        },
        member_of(deployment_json(w, eval, name, ns), "kind"@) == Some(JsonV::Str("Deployment"@)),
        member_of(deployment_spec(deployment_json(w, eval, name, ns)), "replicas"@) == Some(
            JsonV::Int(replicas_of(w) as int),
        ),
        deployment_pod(deployment_json(w, eval, name, ns)) == pod_spec_json(w, eval, name),
        member_of(pod_spec_json(w, eval, name), "topologySpreadConstraints"@) is Some <==> replicas_of(w)
            >= 2,
        member_of(pod_spec_json(w, eval, name), "tolerations"@) == Some(
            JsonV::Arr(
                seq![
                    default_toleration_json("node.kubernetes.io/not-ready"@),
                    default_toleration_json("node.kubernetes.io/unreachable"@),
                ] + match w.spec.tolerations {
                    Some(t) => views(t@),
                    None => Seq::empty(),
                },
            ),
        ),
        member_of(pod_spec_json(w, eval, name), "nodeSelector"@) == Some(
            JsonV::Obj(
                node_selector_members(
                    match w.spec.node_selector {
                        Some(p) => p@,
                        None => Seq::empty(),
                    },
                ),
            ),
        ),
        member_of(pod_spec_json(w, eval, name), "volumes"@) == Some(
            JsonV::Arr(
                seq![store_volume_json(eval)] + match w.spec.extra_volumes {
                    Some(v) => views(v@),
                    None => Seq::empty(),
                },
            ),
        ),
        member_of(pod_spec_json(w, eval, name), "containers"@) == Some(
            JsonV::Arr(seq![container_json(w, eval)]),
        ),
        member_of(container_json(w, eval), "command"@) == Some(
            match w.spec.command {
                Some(c) => str_array(texts_of(c@)),
                None => str_array(seq![resolved_command_text(eval)]),
            },
        ),
{
    lemma_deployment_top(w, eval, name, ns);
    lemma_pod_members(w, eval, name);
    lemma_container_command(w, eval);
}

proof fn lemma_deployment_top(w: &NiphasWorkload, eval: EvalResponse, name: Seq<char>, ns: Seq<char>)
    ensures
        member_of(deployment_json(w, eval, name, ns), "kind"@) == Some(JsonV::Str("Deployment"@)),
        member_of(deployment_spec(deployment_json(w, eval, name, ns)), "replicas"@) == Some(
            JsonV::Int(replicas_of(w) as int),
        ),
        deployment_pod(deployment_json(w, eval, name, ns)) == pod_spec_json(w, eval, name),
{
    let meta = child_metadata_json(w, name, ns, name);
    let template = JsonV::Obj(
        seq![
            ("metadata"@, JsonV::Obj(seq![("labels"@, labels_json(name))])),
            ("spec"@, pod_spec_json(w, eval, name)),
        ],
    );
    let spec_ms = seq![
        ("replicas"@, JsonV::Int(replicas_of(w) as int)),
        ("selector"@, selector_json(name)),
        ("template"@, template),
    ];
    lemma_manifest_members("apps/v1"@, "Deployment"@, meta, JsonV::Obj(spec_ms));
    reveal_with_fuel(first_member, 4);
    reveal_strlit("replicas");
    reveal_strlit("selector");
    reveal_strlit("template");
    reveal_strlit("metadata");
    reveal_strlit("spec");
    assert(spec_ms.skip(1) =~= seq![("selector"@, selector_json(name)), ("template"@, template)]);
    assert(spec_ms.skip(1).skip(1) =~= seq![("template"@, template)]);
    let tms = seq![
        ("metadata"@, JsonV::Obj(seq![("labels"@, labels_json(name))])),
        ("spec"@, pod_spec_json(w, eval, name)),
    ];
    assert(tms.skip(1) =~= seq![("spec"@, pod_spec_json(w, eval, name))]);
    assert("replicas"@[0] != "selector"@[0] && "replicas"@[0] != "template"@[0]);
    assert("spec"@[0] != "metadata"@[0]);
}

#[verifier::spinoff_prover]
proof fn lemma_pod_members(w: &NiphasWorkload, eval: EvalResponse, name: Seq<char>)
    ensures
        member_of(pod_spec_json(w, eval, name), "topologySpreadConstraints"@) is Some <==> replicas_of(w)
            >= 2,
        member_of(pod_spec_json(w, eval, name), "tolerations"@) == Some(tolerations_json(w)),
        member_of(pod_spec_json(w, eval, name), "nodeSelector"@) == Some(
            JsonV::Obj(
                node_selector_members(
                    match w.spec.node_selector {
                        Some(p) => p@,
                        None => Seq::empty(),
                    },
                ),
            ),
        ),
        member_of(pod_spec_json(w, eval, name), "volumes"@) == Some(
            JsonV::Arr(
                seq![store_volume_json(eval)] + match w.spec.extra_volumes {
                    Some(v) => views(v@),
                    None => Seq::empty(),
                },
            ),
        ),
        member_of(pod_spec_json(w, eval, name), "containers"@) == Some(
            JsonV::Arr(seq![container_json(w, eval)]),
        ),
{
    let base = seq![
        ("nodeSelector"@, JsonV::Obj(node_selector_members(match w.spec.node_selector {
            Some(p) => p@,
            None => Seq::empty(),
        }))),
        ("tolerations"@, tolerations_json(w)),
        ("containers"@, JsonV::Arr(seq![container_json(w, eval)])),
        ("volumes"@, JsonV::Arr(seq![store_volume_json(eval)] + match w.spec.extra_volumes {
            Some(v) => views(v@),
            None => Seq::empty(),
        })),
    ];
    let spread: Seq<(Seq<char>, JsonV)> = if replicas_of(w) >= 2 {
        seq![("topologySpreadConstraints"@, topology_spread_json(name))]
    } else {
        Seq::empty()
    };
    let aff = optional_member("affinity"@, w.spec.affinity);
    assert(pod_spec_json(w, eval, name) == JsonV::Obj(base + spread + aff));
    lemma_pod_base_lookup(base);
    reveal_strlit("topologySpreadConstraints");
    reveal_strlit("affinity");
    reveal_strlit("tolerations");
    reveal_strlit("nodeSelector");
    reveal_strlit("containers");
    reveal_strlit("volumes");
    let key = "topologySpreadConstraints"@;
    assert(key[0] != "affinity"@[0] && key[2] != "tolerations"@[2] && key[0] != "nodeSelector"@[0]
        && key[0] != "containers"@[0] && key[0] != "volumes"@[0]);
    if w.spec.affinity is Some {
        assert(aff =~= seq![("affinity"@, w.spec.affinity.unwrap().view())]);
        assert(first_member(aff.skip(1), key) is None);
        assert("affinity"@[0] != "tolerations"@[0] && "affinity"@[0] != "nodeSelector"@[0]
            && "affinity"@[0] != "containers"@[0] && "affinity"@[0] != "volumes"@[0]);
    }
    if replicas_of(w) >= 2 {
        assert(spread.skip(1).len() == 0);
    }
    lemma_first_member_concat(base, spread, key);
    lemma_first_member_concat(base + spread, aff, key);
    lemma_first_member_concat(base, spread, "tolerations"@);
    lemma_first_member_concat(base + spread, aff, "tolerations"@);
    lemma_first_member_concat(base, spread, "nodeSelector"@);
    lemma_first_member_concat(base + spread, aff, "nodeSelector"@);
    lemma_first_member_concat(base, spread, "volumes"@);
    lemma_first_member_concat(base + spread, aff, "volumes"@);
    lemma_first_member_concat(base, spread, "containers"@);
    lemma_first_member_concat(base + spread, aff, "containers"@);
}

proof fn lemma_pod_base_lookup(base: Seq<(Seq<char>, JsonV)>)
    requires
        base.len() == 4,
        base[0].0 == "nodeSelector"@,
        base[1].0 == "tolerations"@,
        base[2].0 == "containers"@,
        base[3].0 == "volumes"@,
    ensures
        first_member(base, "nodeSelector"@) == Some(base[0].1),
        first_member(base, "tolerations"@) == Some(base[1].1),
        first_member(base, "containers"@) == Some(base[2].1),
        first_member(base, "volumes"@) == Some(base[3].1),
        first_member(base, "topologySpreadConstraints"@) is None,
        first_member(base, "affinity"@) is None,
{
    reveal_with_fuel(first_member, 5);
    reveal_strlit("topologySpreadConstraints");
    reveal_strlit("affinity");
    reveal_strlit("tolerations");
    reveal_strlit("nodeSelector");
    reveal_strlit("containers");
    reveal_strlit("volumes");
    assert(base.skip(1) =~= seq![base[1], base[2], base[3]]);
    assert(base.skip(1).skip(1) =~= seq![base[2], base[3]]);
    assert(base.skip(1).skip(1).skip(1) =~= seq![base[3]]);
    assert(base.skip(1).skip(1).skip(1).skip(1).len() == 0);
    assert("nodeSelector"@[0] != "tolerations"@[0] && "nodeSelector"@[0] != "containers"@[0]
        && "nodeSelector"@[0] != "volumes"@[0] && "tolerations"@[0] != "containers"@[0]
        && "tolerations"@[0] != "volumes"@[0] && "containers"@[0] != "volumes"@[0]);
    let key = "topologySpreadConstraints"@;
    assert(key[0] != "nodeSelector"@[0] && key[2] != "tolerations"@[2] && key[0] != "containers"@[0]
        && key[0] != "volumes"@[0]);
    assert("affinity"@[0] != "tolerations"@[0] && "affinity"@[0] != "nodeSelector"@[0]
        && "affinity"@[0] != "containers"@[0] && "affinity"@[0] != "volumes"@[0]);
}

proof fn lemma_container_command(w: &NiphasWorkload, eval: EvalResponse)
    ensures
        member_of(container_json(w, eval), "command"@) == Some(
            match w.spec.command {
                Some(c) => str_array(texts_of(c@)),
                None => str_array(seq![resolved_command_text(eval)]),
            },
        ),
{
    let cms = seq![
        ("name"@, JsonV::Str("app"@)),
        ("image"@, JsonV::Str(RUNNER_IMAGE@)),
        ("command"@, match w.spec.command {
            Some(c) => str_array(texts_of(c@)),
            None => str_array(seq![resolved_command_text(eval)]),
        }),
        ("volumeMounts"@, JsonV::Arr(seq![store_mount_json()] + match w.spec.extra_volume_mounts {
            Some(m) => views(m@),
            None => Seq::empty(),
        })),
    ];
    let args = match w.spec.args {
        Some(a) => seq![("args"@, str_array(texts_of(a@)))],
        None => Seq::empty(),
    };
    let p1 = cms + args;
    let p2 = p1 + optional_array("env"@, w.spec.env);
    let p3 = p2 + optional_array("ports"@, w.spec.ports);
    let p4 = p3 + optional_member("resources"@, w.spec.resources);
    let p5 = p4 + optional_member("livenessProbe"@, w.spec.liveness_probe);
    let p6 = p5 + optional_member("readinessProbe"@, w.spec.readiness_probe);
    let p7 = p6 + optional_member("startupProbe"@, w.spec.startup_probe);
    assert(container_json(w, eval) == JsonV::Obj(p7));
    let k = "command"@;
    lemma_first_member_concat(cms, args, k);
    lemma_first_member_concat(p1, optional_array("env"@, w.spec.env), k);
    lemma_first_member_concat(p2, optional_array("ports"@, w.spec.ports), k);
    lemma_first_member_concat(p3, optional_member("resources"@, w.spec.resources), k);
    lemma_first_member_concat(p4, optional_member("livenessProbe"@, w.spec.liveness_probe), k);
    lemma_first_member_concat(p5, optional_member("readinessProbe"@, w.spec.readiness_probe), k);
    lemma_first_member_concat(p6, optional_member("startupProbe"@, w.spec.startup_probe), k);
    assert(first_member(cms, k) == Some(cms[2].1)) by {
        lemma_container_head(cms);
    }
}

proof fn lemma_container_head(cms: Seq<(Seq<char>, JsonV)>)
    requires
        cms.len() == 4,
        cms[0].0 == "name"@,
        cms[1].0 == "image"@,
        cms[2].0 == "command"@,
    ensures
        first_member(cms, "command"@) == Some(cms[2].1),
{
    reveal_with_fuel(first_member, 4);
    reveal_strlit("name");
    reveal_strlit("image");
    reveal_strlit("command");
    assert(cms.skip(1) =~= seq![cms[1], cms[2], cms[3]]);
    assert(cms.skip(1).skip(1) =~= seq![cms[2], cms[3]]);
    assert("name"@[0] != "command"@[0] && "image"@[0] != "command"@[0]);
}

/// The Ingress has the class name when one is asked for; a rule per host, each routing
/// its paths (type `Prefix` unless given) to the workload's Service on the port by
/// number when it reads as one, else by name; and a TLS entry per TLS block.
pub proof fn lemma_ingress_fields(w: &NiphasWorkload, ing: &NiphasIngressSpec, name: Seq<char>, ns: Seq<char>)
    ensures
        member_of(ingress_json(w, ing, name, ns), "kind"@) == Some(JsonV::Str("Ingress"@)),
        member_of(ingress_json(w, ing, name, ns), "spec"@) == Some(
            JsonV::Obj(ingress_spec_members(ing, name)),
        ),
        first_member(ingress_spec_members(ing, name), "ingressClassName"@) == match ing.class_name {
            Some(c) => Some(JsonV::Str(c@)),
            None => None,
        },
        first_member(ingress_spec_members(ing, name), "rules"@) == match ing.hosts {
            Some(hs) => Some(
                JsonV::Arr(Seq::new(hs@.len(), |i: int| ingress_rule_json(hs@[i], name))),
            ),
            None => None,
        },
        first_member(ingress_spec_members(ing, name), "tls"@) == match ing.tls {
            Some(ts) => Some(JsonV::Arr(Seq::new(ts@.len(), |i: int| ingress_tls_json(ts@[i])))),
            None => None,
        },
{
    lemma_manifest_members(
        "networking.k8s.io/v1"@,
        "Ingress"@,
        child_metadata_json(w, name, ns, name),
        JsonV::Obj(ingress_spec_members(ing, name)),
    );
    let a: Seq<(Seq<char>, JsonV)> = match ing.class_name {
        Some(c) => seq![("ingressClassName"@, JsonV::Str(c@))],
        None => Seq::empty(),
    };
    let b: Seq<(Seq<char>, JsonV)> = match ing.hosts {
        Some(hs) => seq![("rules"@, JsonV::Arr(
            Seq::new(hs@.len(), |i: int| ingress_rule_json(hs@[i], name)),
        ))],
        None => Seq::empty(),
    };
    let c: Seq<(Seq<char>, JsonV)> = match ing.tls {
        Some(ts) => seq![("tls"@, JsonV::Arr(
            Seq::new(ts@.len(), |i: int| ingress_tls_json(ts@[i])),
        ))],
        None => Seq::empty(),
    };
    assert(ingress_spec_members(ing, name) == a + b + c);
    reveal_with_fuel(first_member, 2);
    reveal_strlit("ingressClassName");
    reveal_strlit("rules");
    reveal_strlit("tls");
    assert("ingressClassName"@[0] != "rules"@[0] && "ingressClassName"@[0] != "tls"@[0]
        && "rules"@[0] != "tls"@[0]);
    assert(a.len() == 1 ==> a.skip(1).len() == 0);
    assert(b.len() == 1 ==> b.skip(1).len() == 0);
    assert(c.len() == 1 ==> c.skip(1).len() == 0);
    lemma_first_member_concat(a, b, "ingressClassName"@);
    lemma_first_member_concat(a + b, c, "ingressClassName"@);
    lemma_first_member_concat(a, b, "rules"@);
    lemma_first_member_concat(a + b, c, "rules"@);
    lemma_first_member_concat(a, b, "tls"@);
    lemma_first_member_concat(a + b, c, "tls"@);
}

/// The Service has the type asked for (`ClusterIP` when none is), selects the workload's
/// pods, and lists one port per port asked for, in order.
pub proof fn lemma_service_fields(w: &NiphasWorkload, svc: &NiphasServiceSpec, name: Seq<char>, ns: Seq<char>)
    ensures
        member_of(service_json(w, svc, name, ns), "kind"@) == Some(JsonV::Str("Service"@)),
        member_of(member_of(service_json(w, svc, name, ns), "spec"@).unwrap(), "type"@) == Some(
            JsonV::Str(
                match svc.type_ {
                    Some(t) => t@,
                    None => "ClusterIP"@,
                },
            ),
        ),
        member_of(member_of(service_json(w, svc, name, ns), "spec"@).unwrap(), "selector"@) == Some(
            JsonV::Obj(seq![("niphas.io/workload"@, JsonV::Str(name))]),
        ),
        member_of(member_of(service_json(w, svc, name, ns), "spec"@).unwrap(), "ports"@) == Some(
            JsonV::Arr(Seq::new(svc.ports@.len(), |i: int| service_port_json(svc.ports@[i]))),
        ),
{
    let ms = seq![
        ("type"@, JsonV::Str(match svc.type_ {
            Some(t) => t@,
            None => "ClusterIP"@,
        })),
        ("selector"@, JsonV::Obj(seq![("niphas.io/workload"@, JsonV::Str(name))])),
        ("ports"@, JsonV::Arr(
            Seq::new(svc.ports@.len(), |i: int| service_port_json(svc.ports@[i])),
        )),
    ];
    lemma_manifest_members("v1"@, "Service"@, child_metadata_json(w, name, ns, name), JsonV::Obj(ms));
    reveal_with_fuel(first_member, 4);
    reveal_strlit("type");
    reveal_strlit("selector");
    reveal_strlit("ports");
    assert(ms.skip(1) =~= seq![ms[1], ms[2]]);
    assert(ms.skip(1).skip(1) =~= seq![ms[2]]);
    assert("type"@[0] != "selector"@[0] && "type"@[0] != "ports"@[0] && "selector"@[0] != "ports"@[0]);
}

/// The labels of the Deployment's pod template.
pub open spec fn template_labels(d: JsonV) -> JsonV {
    member_of(
        member_of(member_of(deployment_spec(d), "template"@).unwrap(), "metadata"@).unwrap(),
        "labels"@,
    ).unwrap()
}

/// The labels the Deployment selects its pods by.
pub open spec fn deployment_match_labels(d: JsonV) -> JsonV {
    member_of(member_of(deployment_spec(d), "selector"@).unwrap(), "matchLabels"@).unwrap()
}

/// The Deployment selects its pods by `niphas.io/workload = <name>`, and its pod template
/// carries that very label (so the selector matches the pods it creates) together with
/// `niphas.io/managed-by = niphas-operator`; the Service selects the same label.
pub proof fn lemma_deployment_selects_its_pods(
    w: &NiphasWorkload,
    eval: EvalResponse,
    name: Seq<char>,
    ns: Seq<char>,
)
    ensures
        member_of(deployment_match_labels(deployment_json(w, eval, name, ns)), "niphas.io/workload"@)
            == Some(JsonV::Str(name)),
        member_of(template_labels(deployment_json(w, eval, name, ns)), "niphas.io/workload"@) == Some(
            JsonV::Str(name),
        ),
        member_of(template_labels(deployment_json(w, eval, name, ns)), "niphas.io/managed-by"@) == Some(
            JsonV::Str("niphas-operator"@),
        ),
        forall|k: Seq<char>|
            #[trigger] member_of(deployment_match_labels(deployment_json(w, eval, name, ns)), k) is Some
                ==> member_of(template_labels(deployment_json(w, eval, name, ns)), k) == member_of(
                deployment_match_labels(deployment_json(w, eval, name, ns)),
                k,
            ),
{
    let d = deployment_json(w, eval, name, ns);
    lemma_deployment_top(w, eval, name, ns);
    lemma_deployment_spec_members(w, eval, name, ns);
    let t = member_of(deployment_spec(d), "template"@).unwrap();
    let tms = seq![
        ("metadata"@, JsonV::Obj(seq![("labels"@, labels_json(name))])),
        ("spec"@, pod_spec_json(w, eval, name)),
    ];
    assert(t == JsonV::Obj(tms));
    reveal_with_fuel(first_member, 3);
    reveal_strlit("metadata");
    reveal_strlit("labels");
    reveal_strlit("matchLabels");
    reveal_strlit("niphas.io/workload");
    reveal_strlit("niphas.io/managed-by");
    assert(member_of(t, "metadata"@) == Some(JsonV::Obj(seq![("labels"@, labels_json(name))])));
    assert(template_labels(d) == labels_json(name));
    let lms = seq![
        ("niphas.io/workload"@, JsonV::Str(name)),
        ("niphas.io/managed-by"@, JsonV::Str("niphas-operator"@)),
    ];
    assert(lms.skip(1) =~= seq![lms[1]]);
    assert("niphas.io/workload"@[10] != "niphas.io/managed-by"@[10]);
    assert(deployment_match_labels(d) == JsonV::Obj(seq![("niphas.io/workload"@, JsonV::Str(name))]));
    assert forall|k: Seq<char>|
        #[trigger] member_of(deployment_match_labels(d), k) is Some implies member_of(
            template_labels(d),
            k,
        ) == member_of(deployment_match_labels(d), k) by {
        assert(seq![("niphas.io/workload"@, JsonV::Str(name))].skip(1).len() == 0);
    }
}

proof fn lemma_deployment_spec_members(w: &NiphasWorkload, eval: EvalResponse, name: Seq<char>, ns: Seq<char>)
    ensures
        member_of(deployment_spec(deployment_json(w, eval, name, ns)), "selector"@) == Some(
            selector_json(name),
        ),
        member_of(deployment_spec(deployment_json(w, eval, name, ns)), "template"@) == Some(
            JsonV::Obj(
                seq![
                    ("metadata"@, JsonV::Obj(seq![("labels"@, labels_json(name))])),
                    ("spec"@, pod_spec_json(w, eval, name)),
                ],
            ),
        ),
{
    let meta = child_metadata_json(w, name, ns, name);
    let template = JsonV::Obj(
        seq![
            ("metadata"@, JsonV::Obj(seq![("labels"@, labels_json(name))])),
            ("spec"@, pod_spec_json(w, eval, name)),
        ],
    );
    let spec_ms = seq![
        ("replicas"@, JsonV::Int(replicas_of(w) as int)),
        ("selector"@, selector_json(name)),
        ("template"@, template),
    ];
    lemma_manifest_members("apps/v1"@, "Deployment"@, meta, JsonV::Obj(spec_ms));
    reveal_with_fuel(first_member, 4);
    reveal_strlit("replicas");
    reveal_strlit("selector");
    reveal_strlit("template");
    assert(spec_ms.skip(1) =~= seq![("selector"@, selector_json(name)), ("template"@, template)]);
    assert(spec_ms.skip(1).skip(1) =~= seq![("template"@, template)]);
    assert("replicas"@[0] != "selector"@[0] && "replicas"@[0] != "template"@[0]);
    assert("selector"@[0] != "template"@[0]);
}

/// Each port of a Service is the port asked for: its number, its protocol (TCP only when
/// none is asked for), its name when it has one, and its target port when it has one (a
/// number when the text reads as one, else the text).
pub proof fn lemma_service_ports(w: &NiphasWorkload, svc: &NiphasServiceSpec, name: Seq<char>, ns: Seq<char>)
    ensures
        member_of(member_of(service_json(w, svc, name, ns), "spec"@).unwrap(), "ports"@) matches Some(
            JsonV::Arr(ports),
        ) && ports.len() == svc.ports@.len() && forall|i: int|
            0 <= i < ports.len() ==> {
                &&& member_of(#[trigger] ports[i], "port"@) == Some(JsonV::Int(svc.ports@[i].port as int))
                &&& member_of(ports[i], "protocol"@) == Some(
                    JsonV::Str(
                        match svc.ports@[i].protocol {
                            Some(x) => x@,
                            None => "TCP"@,
                        },
                    ),
                )
                &&& member_of(ports[i], "name"@) == match svc.ports@[i].name {
                    Some(n) => Some(JsonV::Str(n@)),
                    None => None,
                }
                &&& member_of(ports[i], "targetPort"@) == match svc.ports@[i].target_port {
                    Some(t) => Some(
                        match parse_i32_spec(t@) {
                            Some(k) => JsonV::Int(k as int),
                            None => JsonV::Str(t@),
                        },
                    ),
                    None => None,
                }
            },
{
    lemma_service_fields(w, svc, name, ns);
    assert forall|i: int| 0 <= i < svc.ports@.len() implies {
        let pj = #[trigger] service_port_json(svc.ports@[i]);
        &&& member_of(pj, "port"@) == Some(JsonV::Int(svc.ports@[i].port as int))
        &&& member_of(pj, "protocol"@) == Some(
            JsonV::Str(
                match svc.ports@[i].protocol {
                    Some(x) => x@,
                    None => "TCP"@,
                },
            ),
        )
        &&& member_of(pj, "name"@) == match svc.ports@[i].name {
            Some(n) => Some(JsonV::Str(n@)),
            None => None,
        }
        &&& member_of(pj, "targetPort"@) == match svc.ports@[i].target_port {
            Some(t) => Some(
                match parse_i32_spec(t@) {
                    Some(k) => JsonV::Int(k as int),
                    None => JsonV::Str(t@),
                },
            ),
            None => None,
        }
    } by {
        lemma_service_port_members(svc.ports@[i]);
    }
}

proof fn lemma_service_port_members(p: crate::crd::NiphasServicePort)
    ensures
        member_of(service_port_json(p), "port"@) == Some(JsonV::Int(p.port as int)),
        member_of(service_port_json(p), "protocol"@) == Some(
            JsonV::Str(
                match p.protocol {
                    Some(x) => x@,
                    None => "TCP"@,
                },
            ),
        ),
        member_of(service_port_json(p), "name"@) == match p.name {
            Some(n) => Some(JsonV::Str(n@)),
            None => None,
        },
        member_of(service_port_json(p), "targetPort"@) == match p.target_port {
            Some(t) => Some(
                match parse_i32_spec(t@) {
                    Some(k) => JsonV::Int(k as int),
                    None => JsonV::Str(t@),
                },
            ),
            None => None,
        },
{
    let a = seq![
        ("port"@, JsonV::Int(p.port as int)),
        ("protocol"@, JsonV::Str(match p.protocol {
            Some(x) => x@,
            None => "TCP"@,
        })),
    ];
    let b: Seq<(Seq<char>, JsonV)> = match p.name {
        Some(n) => seq![("name"@, JsonV::Str(n@))],
        None => Seq::empty(),
    };
    let c: Seq<(Seq<char>, JsonV)> = match p.target_port {
        Some(t) => seq![("targetPort"@, target_port_json(t@))],
        None => Seq::empty(),
    };
    assert(service_port_json(p) == JsonV::Obj(a + b + c));
    reveal_with_fuel(first_member, 3);
    reveal_strlit("port");
    reveal_strlit("protocol");
    reveal_strlit("name");
    reveal_strlit("targetPort");
    assert(a.skip(1) =~= seq![a[1]]);
    assert(a.skip(1).skip(1).len() == 0);
    assert(b.len() == 1 ==> b.skip(1).len() == 0);
    assert(c.len() == 1 ==> c.skip(1).len() == 0);
    assert("port"@.len() == 4 && "protocol"@.len() == 8 && "name"@.len() == 4 && "targetPort"@.len() == 10);
    assert("port"@[0] != "name"@[0]);
    assert("protocol"@[0] != "name"@[0] && "protocol"@[0] != "targetPort"@[0] && "name"@[0] != "targetPort"@[0]);
    lemma_first_member_concat(a, b, "port"@);
    lemma_first_member_concat(a + b, c, "port"@);
    lemma_first_member_concat(a, b, "protocol"@);
    lemma_first_member_concat(a + b, c, "protocol"@);
    lemma_first_member_concat(a, b, "name"@);
    lemma_first_member_concat(a + b, c, "name"@);
    lemma_first_member_concat(a, b, "targetPort"@);
    lemma_first_member_concat(a + b, c, "targetPort"@);
}

/// Each host rule of the Ingress names its host and routes each of its paths, in order:
/// the path, its type (`Prefix` when none is given), and the workload's Service as the
/// backend, on the port by number when the port's text reads as one, else by name.
pub proof fn lemma_ingress_routes(h: crate::crd::NiphasIngressHost, name: Seq<char>)
    ensures
        member_of(ingress_rule_json(h, name), "host"@) == Some(JsonV::Str(h.host@)),
        member_of(member_of(ingress_rule_json(h, name), "http"@).unwrap(), "paths"@) matches Some(
            JsonV::Arr(ps),
        ) && ps.len() == h.paths@.len() && forall|j: int|
            0 <= j < ps.len() ==> {
                let p = h.paths@[j];
                let svc = member_of(member_of(#[trigger] ps[j], "backend"@).unwrap(), "service"@).unwrap();
                &&& member_of(ps[j], "path"@) == Some(JsonV::Str(p.path@))
                &&& member_of(ps[j], "pathType"@) == Some(
                    JsonV::Str(
                        match p.path_type {
                            Some(t) => t@,
                            None => "Prefix"@,
                        },
                    ),
                )
                &&& member_of(svc, "name"@) == Some(JsonV::Str(name))
                &&& member_of(svc, "port"@) == Some(
                    match parse_i32_spec(p.port@) {
                        Some(n) => JsonV::Obj(seq![("number"@, JsonV::Int(n as int))]),
                        None => JsonV::Obj(seq![("name"@, JsonV::Str(p.port@))]),
                    },
                )
            },
{
    reveal_with_fuel(first_member, 4);
    reveal_strlit("host");
    reveal_strlit("http");
    reveal_strlit("paths");
    reveal_strlit("path");
    reveal_strlit("pathType");
    reveal_strlit("backend");
    reveal_strlit("service");
    reveal_strlit("name");
    reveal_strlit("port");
    assert("host"@[1] != "http"@[1]);
    let rms = seq![
        ("host"@, JsonV::Str(h.host@)),
        ("http"@, JsonV::Obj(
            seq![("paths"@, JsonV::Arr(
                Seq::new(h.paths@.len(), |i: int| ingress_path_json(h.paths@[i], name)),
            ))],
        )),
    ];
    assert(rms.skip(1) =~= seq![rms[1]]);
    assert forall|j: int| 0 <= j < h.paths@.len() implies {
        let p = h.paths@[j];
        let pj = #[trigger] ingress_path_json(h.paths@[j], name);
        let svc = member_of(member_of(pj, "backend"@).unwrap(), "service"@).unwrap();
        &&& member_of(pj, "path"@) == Some(JsonV::Str(p.path@))
        &&& member_of(pj, "pathType"@) == Some(
            JsonV::Str(
                match p.path_type {
                    Some(t) => t@,
                    None => "Prefix"@,
                },
            ),
        )
        &&& member_of(svc, "name"@) == Some(JsonV::Str(name))
        &&& member_of(svc, "port"@) == Some(
            match parse_i32_spec(p.port@) {
                Some(n) => JsonV::Obj(seq![("number"@, JsonV::Int(n as int))]),
                None => JsonV::Obj(seq![("name"@, JsonV::Str(p.port@))]),
            },
        )
    } by {
        lemma_ingress_path_members(h.paths@[j], name);
    }
}

proof fn lemma_ingress_path_members(p: crate::crd::NiphasIngressPath, name: Seq<char>)
    ensures
        member_of(ingress_path_json(p, name), "path"@) == Some(JsonV::Str(p.path@)),
        member_of(ingress_path_json(p, name), "pathType"@) == Some(
            JsonV::Str(
                match p.path_type {
                    Some(t) => t@,
                    None => "Prefix"@,
                },
            ),
        ),
        member_of(
            member_of(member_of(ingress_path_json(p, name), "backend"@).unwrap(), "service"@).unwrap(),
            "name"@,
        ) == Some(JsonV::Str(name)),
        member_of(
            member_of(member_of(ingress_path_json(p, name), "backend"@).unwrap(), "service"@).unwrap(),
            "port"@,
        ) == Some(
            match parse_i32_spec(p.port@) {
                Some(n) => JsonV::Obj(seq![("number"@, JsonV::Int(n as int))]),
                None => JsonV::Obj(seq![("name"@, JsonV::Str(p.port@))]),
            },
        ),
{
    reveal_with_fuel(first_member, 4);
    reveal_strlit("path");
    reveal_strlit("pathType");
    reveal_strlit("backend");
    reveal_strlit("service");
    reveal_strlit("name");
    reveal_strlit("port");
    let svc_ms = seq![("name"@, JsonV::Str(name)), ("port"@, backend_port_json(p.port@))];
    let ms = seq![
        ("path"@, JsonV::Str(p.path@)),
        ("pathType"@, JsonV::Str(match p.path_type {
            Some(t) => t@,
            None => "Prefix"@,
        })),
        ("backend"@, JsonV::Obj(seq![("service"@, JsonV::Obj(svc_ms))])),
    ];
    assert(ms.skip(1) =~= seq![ms[1], ms[2]]);
    assert(ms.skip(1).skip(1) =~= seq![ms[2]]);
    assert(svc_ms.skip(1) =~= seq![svc_ms[1]]);
    assert("path"@.len() == 4 && "pathType"@.len() == 8);
    assert("path"@[0] != "backend"@[0] && "pathType"@[0] != "backend"@[0]);
    assert("name"@[0] != "port"@[0]);
}

fn join_texts(v: &Vec<String>, sep: &str) -> (r: String)
    ensures
        r@ == join(texts_of(v@), sep@),
{
    let ghost ss = texts_of(v@);
    let mut joined = String::new();
    let mut j: usize = 0;
    proof {
        assert(ss.take(0) =~= Seq::<Seq<char>>::empty());
    }
    while j < v.len()
        invariant
            j <= v@.len(),
            ss == texts_of(v@),
            joined@ == join(ss.take(j as int), sep@),
        decreases v@.len() - j,
    {
        if j > 0 {
            push_str(&mut joined, sep);
        }
        push_str(&mut joined, v[j].as_str());
        proof {
            assert(ss.take(j + 1).drop_last() =~= ss.take(j as int));
            if j == 0 {
                assert(ss.take(1)[0] == v@[0]@);
            }
        }
        j += 1;
    }
    proof {
        assert(ss.take(j as int) =~= ss);
    }
    joined
}

fn node_selector(pairs: &Option<Vec<(String, String)>>) -> (r: Json)
    ensures
        r.view() == JsonV::Obj(node_selector_members(match pairs {
            Some(p) => p@,
            None => Seq::empty(),
        })),
{
    let mut m = empty_obj();
    push_member(&mut m, "niphas.io/store", jstr("true"));
    match pairs {
        Some(p) => {
            let mut i: usize = 0;
            proof {
                assert(p@.take(0) =~= Seq::<(String, String)>::empty());
            }
            while i < p.len()
                invariant
                    i <= p@.len(),
                    obj_view(m@) == node_selector_members(p@.take(i as int)),
                decreases p@.len() - i,
            {
                obj_insert(&mut m, p[i].0.as_str(), jstr(p[i].1.as_str()));
                proof {
                    assert(p@.take(i + 1).drop_last() =~= p@.take(i as int));
                }
                i += 1;
            }
            proof {
                assert(p@.take(i as int) =~= p@);
            }
        },
        None => {},
    }
    Json::Obj(m)
}

fn default_toleration(key: &str) -> (r: Json)
    ensures
        r.view() == default_toleration_json(key@),
{
    let mut m = empty_obj();
    push_member(&mut m, "key", jstr(key));
    push_member(&mut m, "operator", jstr("Exists"));
    push_member(&mut m, "effect", jstr("NoExecute"));
    push_member(&mut m, "tolerationSeconds", Json::Int(30));
    proof {
        assert(obj_view(m@) =~= match default_toleration_json(key@) {
            JsonV::Obj(x) => x,
            _ => Seq::empty(),
        });
    }
    Json::Obj(m)
}

fn store_mount() -> (r: Json)
    ensures
        r.view() == store_mount_json(),
{
    let mut m = empty_obj();
    push_member(&mut m, "name", jstr("nix-store"));
    push_member(&mut m, "mountPath", jstr("/nix/store"));
    push_member(&mut m, "readOnly", Json::Bool(true));
    proof {
        assert(obj_view(m@) =~= match store_mount_json() {
            JsonV::Obj(x) => x,
            _ => Seq::empty(),
        });
    }
    Json::Obj(m)
}

fn push_optional(m: &mut Vec<Member>, key: &str, v: &Option<Json>)
    ensures
        obj_view(final(m)@) == obj_view(old(m)@) + optional_member(key@, *v),
{
    match v {
        Some(j) => {
            push_member(m, key, json_copy(j));
            proof {
                assert(obj_view(old(m)@).push((key@, j.view())) =~= obj_view(old(m)@) + optional_member(key@, *v));
            }
        },
        None => {
            proof {
                assert(obj_view(m@) =~= obj_view(old(m)@) + optional_member(key@, *v));
            }
        },
    }
}

fn push_optional_array(m: &mut Vec<Member>, key: &str, v: &Option<Vec<Json>>)
    ensures
        obj_view(final(m)@) == obj_view(old(m)@) + optional_array(key@, *v),
{
    match v {
        Some(js) => {
            let mut arr = empty_arr();
            append_copies(&mut arr, js);
            push_member(m, key, Json::Arr(arr));
            proof {
                assert(Seq::<JsonV>::empty() + views(js@) =~= views(js@));
                assert(obj_view(old(m)@).push((key@, JsonV::Arr(views(js@)))) =~= obj_view(old(m)@) + optional_array(key@, *v));
            }
        },
        None => {
            proof {
                assert(obj_view(m@) =~= obj_view(old(m)@) + optional_array(key@, *v));
            }
        },
    }
}

fn container(w: &NiphasWorkload, eval: &EvalResponse) -> (r: Json)
    ensures
        r.view() == container_json(w, *eval),
{
    let command = match &w.spec.command {
        Some(c) => jstr_array(c),
        None => {
            let mut one: Vec<String> = Vec::new();
            one.push(eval.resolved_command());
            proof {
                assert(Seq::new(one@.len(), |i: int| one@[i]@) =~= seq![resolved_command_text(*eval)]);
            }
            jstr_array(&one)
        },
    };
    proof {
        if let Some(c) = &w.spec.command {
            assert(Seq::new(c@.len(), |i: int| c@[i]@) =~= texts_of(c@));
        }
    }
    let mut mounts = empty_arr();
    push_item(&mut mounts, store_mount());
    match &w.spec.extra_volume_mounts {
        Some(extra) => append_copies(&mut mounts, extra),
        None => {},
    }
    proof {
        assert(arr_view(mounts@) =~= seq![store_mount_json()] + match w.spec.extra_volume_mounts {
            Some(m) => views(m@),
            None => Seq::empty(),
        });
    }
    let ghost cmd_view = command.view();
    proof {
        assert(cmd_view == match w.spec.command {
            Some(c) => str_array(texts_of(c@)),
            None => str_array(seq![resolved_command_text(*eval)]),
        });
    }
    let mut m = empty_obj();
    push_member(&mut m, "name", jstr("app"));
    push_member(&mut m, "image", jstr(RUNNER_IMAGE));
    push_member(&mut m, "command", command);
    push_member(&mut m, "volumeMounts", Json::Arr(mounts));
    let ghost base = obj_view(m@);
    match &w.spec.args {
        Some(a) => {
            push_member(&mut m, "args", jstr_array(a));
            proof {
                assert(Seq::new(a@.len(), |i: int| a@[i]@) =~= texts_of(a@));
            }
        },
        None => {},
    }
    push_optional_array(&mut m, "env", &w.spec.env);
    push_optional_array(&mut m, "ports", &w.spec.ports);
    push_optional(&mut m, "resources", &w.spec.resources);
    push_optional(&mut m, "livenessProbe", &w.spec.liveness_probe);
    push_optional(&mut m, "readinessProbe", &w.spec.readiness_probe);
    push_optional(&mut m, "startupProbe", &w.spec.startup_probe);
    proof {
        assert(obj_view(m@) =~= match container_json(w, *eval) {
            JsonV::Obj(x) => x,
            _ => Seq::empty(),
        });
    }
    Json::Obj(m)
}

fn store_volume(eval: &EvalResponse) -> (r: Json)
    ensures
        r.view() == store_volume_json(*eval),
{
    let mut attrs = empty_obj();
    push_member(&mut attrs, "storePath", jstr(eval.store_path.as_str()));
    let csv = join_texts(&eval.closure_paths, ",");
    push_member(&mut attrs, "closurePaths", jstr(csv.as_str()));
    let ghost av = obj_view(attrs@);
    proof {
        assert(av =~= seq![
            ("storePath"@, JsonV::Str(eval.store_path@)),
            ("closurePaths"@, JsonV::Str(join(texts_of(eval.closure_paths@), ","@))),
        ]);
    }
    let mut csi = empty_obj();
    push_member(&mut csi, "driver", jstr("niphas.io.csi"));
    push_member(&mut csi, "volumeAttributes", Json::Obj(attrs));
    let ghost cv = obj_view(csi@);
    proof {
        assert(cv =~= seq![
            ("driver"@, JsonV::Str("niphas.io.csi"@)),
            ("volumeAttributes"@, JsonV::Obj(av)),
        ]);
    }
    let mut m = empty_obj();
    push_member(&mut m, "name", jstr("nix-store"));
    push_member(&mut m, "csi", Json::Obj(csi));
    proof {
        assert(obj_view(m@) =~= match store_volume_json(*eval) {
            JsonV::Obj(x) => x,
            _ => Seq::empty(),
        });
    }
    Json::Obj(m)
}

fn spread(name: &str, key: &str, when: &str) -> (r: Json)
    ensures
        r.view() == JsonV::Obj(
            seq![
                ("maxSkew"@, JsonV::Int(1)),
                ("topologyKey"@, JsonV::Str(key@)),
                ("whenUnsatisfiable"@, JsonV::Str(when@)),
                ("labelSelector"@, selector_json(name@)),
            ],
        ),
{
    let mut m = empty_obj();
    push_member(&mut m, "maxSkew", Json::Int(1));
    push_member(&mut m, "topologyKey", jstr(key));
    push_member(&mut m, "whenUnsatisfiable", jstr(when));
    push_member(&mut m, "labelSelector", selector(name));
    proof {
        assert(obj_view(m@) =~= seq![
            ("maxSkew"@, JsonV::Int(1)),
            ("topologyKey"@, JsonV::Str(key@)),
            ("whenUnsatisfiable"@, JsonV::Str(when@)),
            ("labelSelector"@, selector_json(name@)),
        ]);
    }
    Json::Obj(m)
}

fn pod_spec(w: &NiphasWorkload, eval: &EvalResponse, name: &str) -> (r: Json)
    ensures
        r.view() == pod_spec_json(w, *eval, name@),
{
    let mut tols = empty_arr();
    push_item(&mut tols, default_toleration("node.kubernetes.io/not-ready"));
    push_item(&mut tols, default_toleration("node.kubernetes.io/unreachable"));
    match &w.spec.tolerations {
        Some(t) => append_copies(&mut tols, t),
        None => {},
    }
    proof {
        assert(arr_view(tols@) =~= match tolerations_json(w) {
            JsonV::Arr(x) => x,
            _ => Seq::empty(),
        });
    }
    let mut vols = empty_arr();
    push_item(&mut vols, store_volume(eval));
    match &w.spec.extra_volumes {
        Some(v) => append_copies(&mut vols, v),
        None => {},
    }
    let ghost vv = arr_view(vols@);
    let mut containers = empty_arr();
    push_item(&mut containers, container(w, eval));
    let ghost ccv = arr_view(containers@);
    let mut m = empty_obj();
    push_member(&mut m, "nodeSelector", node_selector(&w.spec.node_selector));
    push_member(&mut m, "tolerations", Json::Arr(tols));
    push_member(&mut m, "containers", Json::Arr(containers));
    push_member(&mut m, "volumes", Json::Arr(vols));
    let replicas = match w.spec.replicas {
        Some(n) => n,
        None => 1,
    };
    if replicas >= 2 {
        let mut tsc = empty_arr();
        push_item(&mut tsc, spread(name, "kubernetes.io/hostname", "DoNotSchedule"));
        push_item(&mut tsc, spread(name, "topology.kubernetes.io/zone", "ScheduleAnyway"));
        proof {
            assert(arr_view(tsc@) =~= match topology_spread_json(name@) {
                JsonV::Arr(x) => x,
                _ => Seq::empty(),
            });
        }
        push_member(&mut m, "topologySpreadConstraints", Json::Arr(tsc));
    }
    push_optional(&mut m, "affinity", &w.spec.affinity);
    proof {
        assert(obj_view(m@) =~= match pod_spec_json(w, *eval, name@) {
            JsonV::Obj(x) => x,
            _ => Seq::empty(),
        });
    }
    Json::Obj(m)
}

/// The Deployment that runs a workload's evaluated closure.
pub fn build_deployment(workload: &NiphasWorkload, eval_result: &EvalResponse, name: &str, ns: &str) -> (r: Json)
    ensures
        r.view() == deployment_json(workload, *eval_result, name@, ns@),
{
    let replicas = match workload.spec.replicas {
        Some(n) => n,
        None => 1,
    };
    let mut tmeta = empty_obj();
    push_member(&mut tmeta, "labels", labels(name));
    let ghost tmv = obj_view(tmeta@);
    let mut template = empty_obj();
    push_member(&mut template, "metadata", Json::Obj(tmeta));
    push_member(&mut template, "spec", pod_spec(workload, eval_result, name));
    let ghost tv = obj_view(template@);
    let mut spec = empty_obj();
    push_member(&mut spec, "replicas", Json::Int(replicas as i64));
    push_member(&mut spec, "selector", selector(name));
    push_member(&mut spec, "template", Json::Obj(template));
    proof {
        assert(tmv =~= seq![("labels"@, labels_json(name@))]);
        assert(tv =~= seq![
            ("metadata"@, JsonV::Obj(seq![("labels"@, labels_json(name@))])),
            ("spec"@, pod_spec_json(workload, *eval_result, name@)),
        ]);
        assert(obj_view(spec@) =~= match deployment_json(workload, *eval_result, name@, ns@) {
            JsonV::Obj(x) => match x[3].1 {
                JsonV::Obj(y) => y,
                _ => Seq::empty(),
            },
            _ => Seq::empty(),
        });
    }
    manifest("apps/v1", "Deployment", child_metadata(workload, name, ns, name), Json::Obj(spec))
}

/// The kind of a child resource, which decides the API it is applied through.
#[derive(Debug, Clone, Copy, PartialEq, Eq, Structural)]
pub enum ChildKind {
    Deployment,
    Service,
    Ingress,
    PodDisruptionBudget,
}

/// The children of a workload, by kind, name and manifest, in the order they are applied.
pub open spec fn child_list(
    workload: &NiphasWorkload,
    eval_result: EvalResponse,
    name: Seq<char>,
    ns: Seq<char>,
) -> Seq<(ChildKind, Seq<char>, JsonV)> {
    let d = seq![(ChildKind::Deployment, name, deployment_json(workload, eval_result, name, ns))];
    let s = match workload.spec.service {
        Some(svc) => d.push((ChildKind::Service, name, service_json(workload, &svc, name, ns))),
        None => d,
    };
    let i = match workload.spec.ingress {
        Some(ing) => if ing.enabled {
            s.push((ChildKind::Ingress, name, ingress_json(workload, &ing, name, ns)))
        } else {
            s
        },
        None => s,
    };
    if replicas_of(workload) >= 2 {
        i.push((ChildKind::PodDisruptionBudget, name + "-pdb"@, pdb_json(workload, name, ns)))
    } else {
        i
    }
}

/// The children to apply for a workload, in order: the Deployment, the Service when
/// asked for, the Ingress when enabled, and a PodDisruptionBudget (named `<name>-pdb`)
/// from two replicas on; each with the kind that names its API.
pub fn child_resources(
    workload: &NiphasWorkload,
    eval_result: &EvalResponse,
    name: &str,
    ns: &str,
) -> (r: Vec<(ChildKind, String, Json)>)
    ensures
        Seq::new(r@.len(), |k: int| (r@[k].0, r@[k].1@, r@[k].2.view())) == child_list(
            workload,
            *eval_result,
            name@,
            ns@,
        ),
{
    let mut out: Vec<(ChildKind, String, Json)> = Vec::new();
    let mut n0 = String::new();
    push_str(&mut n0, name);
    out.push((ChildKind::Deployment, n0, build_deployment(workload, eval_result, name, ns)));
    if workload.spec.service.is_some() {
        let mut n1 = String::new();
        push_str(&mut n1, name);
        out.push((ChildKind::Service, n1, build_service(workload, name, ns)));
    }
    let ingress_on = match &workload.spec.ingress {
        Some(i) => i.enabled,
        None => false,
    };
    if ingress_on {
        let mut n2 = String::new();
        push_str(&mut n2, name);
        out.push((ChildKind::Ingress, n2, build_ingress(workload, name, ns)));
    }
    let replicas = match workload.spec.replicas {
        Some(n) => n,
        None => 1,
    };
    if replicas >= 2 {
        let mut n3 = String::new();
        push_str(&mut n3, name);
        push_str(&mut n3, "-pdb");
        out.push((ChildKind::PodDisruptionBudget, n3, build_pdb(workload, name, ns)));
    }
    proof {
        assert(n0@ =~= name@);
    }
    out
}

} // verus!
