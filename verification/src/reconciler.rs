use vstd::prelude::*;
use crate::crd::{ConditionStatus, ConditionV, NiphasCondition, NiphasWorkload, NiphasWorkloadStatus, WorkloadPhase};
use crate::eval::{resolved_command_text, EvalResponse};
use crate::eval_client::{eval_result_from_status, recorded_eval_result};
use crate::json::{
    arr_view, jstr, jstr_array, lemma_arr_view_push, obj_view, push_member, single, str_array, Json,
    JsonV, Member, first_member, member_of, lemma_first_member_concat,
};
use crate::operator_error::{OperatorError, Requeue};
use crate::store_path::store_path_parse_panics;
use crate::text::{decimal, push_i64, push_str, signed_decimal, str_eq};

verus! {

/// The finalizer the operator puts on every workload it manages.
pub const FINALIZER: &'static str = "niphas.io/workload-cleanup";

// ---------------------------------------------------------------------------
// Conditions
// ---------------------------------------------------------------------------

/// The current time in RFC 3339, as `time::OffsetDateTime::now_utc().format(&Rfc3339)`
/// writes it. Nothing is claimed of the text: it depends on the clock.
#[verifier::external_body]
fn iso_now() -> (r: String) {
    time::OffsetDateTime::now_utc().format(&time::format_description::well_known::Rfc3339).unwrap_or_default()
}

/// A condition stamped with the current time.
pub fn make_condition(
    type_: &str,
    status: ConditionStatus,
    reason: &str,
    message: &str,
    generation: i64,
) -> (c: NiphasCondition)
    ensures
        c.type_@ == type_@,
        c.status == status,
        c.reason@ == reason@,
        c.message@ == message@,
        c.observed_generation == Some(generation),
{
    let mut t = String::new();
    push_str(&mut t, type_);
    let mut r = String::new();
    push_str(&mut r, reason);
    let mut m = String::new();
    push_str(&mut m, message);
    NiphasCondition {
        type_: t,
        status,
        reason: r,
        message: m,
        last_transition_time: iso_now(),
        observed_generation: Some(generation),
    }
}

/// The conditions as values.
pub open spec fn conds_view(s: Seq<NiphasCondition>) -> Seq<ConditionV> {
    Seq::new(s.len(), |i: int| s[i].view())
}

/// Where the first condition of type `t` is.
pub open spec fn type_index(s: Seq<ConditionV>, t: Seq<char>) -> Option<int>
    decreases s.len(),
{
    if s.len() == 0 {
        None
    } else if s[0].type_ == t {
        Some(0)
    } else {
        match type_index(s.skip(1), t) {
            Some(i) => Some(i + 1),
            None => None,
        }
    }
}

/// `s` with `c` in place of the condition of its type, or appended when there is none.
pub open spec fn upsert_one(s: Seq<ConditionV>, c: ConditionV) -> Seq<ConditionV> {
    match type_index(s, c.type_) {
        Some(i) => s.update(i, c),
        None => s.push(c),
    }
}

/// `s` after upserting each of `new` in order.
pub open spec fn upsert_all(s: Seq<ConditionV>, new: Seq<ConditionV>) -> Seq<ConditionV>
    decreases new.len(),
{
    if new.len() == 0 {
        s
    } else {
        upsert_one(upsert_all(s, new.drop_last()), new.last())
    }
}

/// No two conditions share a type.
pub open spec fn types_unique(s: Seq<ConditionV>) -> bool {
    forall|i: int, j: int| 0 <= i < j < s.len() ==> s[i].type_ != s[j].type_
}

proof fn lemma_type_index(s: Seq<ConditionV>, t: Seq<char>)
    ensures
        match type_index(s, t) {
            Some(i) => 0 <= i < s.len() && s[i].type_ == t && forall|k: int|
                0 <= k < i ==> s[k].type_ != t,
            None => forall|k: int| 0 <= k < s.len() ==> s[k].type_ != t,
        },
    decreases s.len(),
{
    if s.len() > 0 {
        lemma_type_index(s.skip(1), t);
        if s[0].type_ != t {
            assert forall|k: int| 1 <= k < s.len() implies s[k] == s.skip(1)[k - 1] by {
            }
        }
    }
}

/// Upserting a condition puts it where its type is found afterwards (a read of the type
/// gives back what was written), leaves every condition of another type as it was, and
/// keeps types unique.
pub proof fn lemma_upsert_one(s: Seq<ConditionV>, c: ConditionV)
    ensures
        type_index(upsert_one(s, c), c.type_) matches Some(i) && upsert_one(s, c)[i] == c,
        forall|k: int|
            0 <= k < s.len() && s[k].type_ != c.type_ ==> #[trigger] upsert_one(s, c)[k] == s[k],
        types_unique(s) ==> types_unique(upsert_one(s, c)),
        upsert_one(s, c).len() == s.len() + if type_index(s, c.type_) is Some { 0int } else { 1int },
{
    lemma_type_index(s, c.type_);
    let r = upsert_one(s, c);
    lemma_type_index(r, c.type_);
    match type_index(s, c.type_) {
        Some(i) => {
            assert forall|k: int| 0 <= k < i implies r[k].type_ != c.type_ by {
                assert(r[k] == s[k]);
            }
            if type_index(r, c.type_) != Some(i) {
                assert(r[i].type_ == c.type_);
            }
        },
        None => {
            let n = s.len() as int;
            assert(r[n] == c);
            assert forall|k: int| 0 <= k < n implies r[k].type_ != c.type_ by {
                assert(r[k] == s[k]);
            }
        },
    }
}

/// Upserting the same condition twice is the same as upserting it once.
pub proof fn lemma_upsert_one_idempotent(s: Seq<ConditionV>, c: ConditionV)
    ensures
        upsert_one(upsert_one(s, c), c) == upsert_one(s, c),
{
    lemma_upsert_one(s, c);
    let r = upsert_one(s, c);
    lemma_type_index(r, c.type_);
    let i = type_index(r, c.type_).unwrap();
    assert(r.update(i, c) =~= r);
}

/// Upserting a list keeps types unique, keeps a condition of every type that was there,
/// and ends with a condition of every type in the list, the last one given for it.
pub proof fn lemma_upsert_all(s: Seq<ConditionV>, new: Seq<ConditionV>)
    ensures
        types_unique(s) ==> types_unique(upsert_all(s, new)),
        forall|k: int|
            0 <= k < s.len() ==> #[trigger] type_index(upsert_all(s, new), s[k].type_) is Some,
        new.len() > 0 ==> (type_index(upsert_all(s, new), new.last().type_) matches Some(i)
            && upsert_all(s, new)[i] == new.last()),
    decreases new.len(),
{
    if new.len() > 0 {
        let prev = upsert_all(s, new.drop_last());
        lemma_upsert_all(s, new.drop_last());
        lemma_upsert_one(prev, new.last());
        let r = upsert_all(s, new);
        assert forall|k: int| 0 <= k < s.len() implies #[trigger] type_index(r, s[k].type_) is Some by {
            let t = s[k].type_;
            lemma_type_index(prev, t);
            lemma_type_index(r, t);
            let j = type_index(prev, t).unwrap();
            if t != new.last().type_ {
                assert(r[j] == prev[j]);
            }
        }
    } else {
        assert forall|k: int| 0 <= k < s.len() implies #[trigger] type_index(s, s[k].type_) is Some by {
            lemma_type_index(s, s[k].type_);
        }
    }
}

/// The condition of type `t` in `s`, the last one where there are several.
pub open spec fn condition_of_type(s: Seq<ConditionV>, t: Seq<char>) -> Option<ConditionV>
    decreases s.len(),
{
    if s.len() == 0 {
        None
    } else if s.last().type_ == t {
        Some(s.last())
    } else {
        condition_of_type(s.drop_last(), t)
    }
}

/// `s` holds a condition of type `t`.
pub open spec fn has_type(s: Seq<ConditionV>, t: Seq<char>) -> bool {
    exists|k: int| 0 <= k < s.len() && #[trigger] s[k].type_ == t
}

/// The conditions of `existing`, each replaced by the new one of its type if there is one.
pub open spec fn replaced(existing: Seq<ConditionV>, new: Seq<ConditionV>) -> Seq<ConditionV> {
    Seq::new(
        existing.len(),
        |i: int|
            match condition_of_type(new, existing[i].type_) {
                Some(c) => c,
                None => existing[i],
            },
    )
}

/// The new conditions of types that `existing` lacks, in their order.
pub open spec fn appended(existing: Seq<ConditionV>, new: Seq<ConditionV>) -> Seq<ConditionV> {
    new.filter(|c: ConditionV| !has_type(existing, c.type_))
}

proof fn lemma_condition_of_type(s: Seq<ConditionV>, t: Seq<char>)
    ensures
        condition_of_type(s, t) is Some <==> has_type(s, t),
        condition_of_type(s, t) matches Some(c) ==> c.type_ == t,
    decreases s.len(),
{
    if s.len() > 0 {
        lemma_condition_of_type(s.drop_last(), t);
        if has_type(s.drop_last(), t) {
            let k = choose|k: int| 0 <= k < s.drop_last().len() && #[trigger] s.drop_last()[k].type_ == t;
            assert(s[k].type_ == t);
        }
        if has_type(s, t) && s.last().type_ != t {
            let k = choose|k: int| 0 <= k < s.len() && #[trigger] s[k].type_ == t;
            assert(s.drop_last()[k].type_ == t);
        }
        if s.last().type_ == t {
            assert(s[s.len() - 1].type_ == t);
        }
    }
}

/// Upserting conditions of distinct types into conditions of distinct types keeps every
/// existing condition in its place, replaced by the new one of its type if there is one,
/// and appends the new conditions of the other types in their order.
pub proof fn lemma_upsert_positions(existing: Seq<ConditionV>, new: Seq<ConditionV>)
    requires
        types_unique(existing),
        types_unique(new),
    ensures
        upsert_all(existing, new) == replaced(existing, new) + appended(existing, new),
    decreases new.len(),
{
    reveal(Seq::filter);
    let e = existing;
    if new.len() == 0 {
        assert(replaced(e, new) =~= e);
        assert(appended(e, new) =~= Seq::<ConditionV>::empty());
        assert(replaced(e, new) + appended(e, new) =~= e);
    } else {
        let n0 = new.drop_last();
        let c = new.last();
        assert(types_unique(n0));
        lemma_upsert_positions(e, n0);
        let prev = upsert_all(e, n0);
        assert(prev == replaced(e, n0) + appended(e, n0));
        let rp = replaced(e, n0);
        let ap = appended(e, n0);
        assert(!has_type(n0, c.type_)) by {
            if has_type(n0, c.type_) {
                let k = choose|k: int| 0 <= k < n0.len() && #[trigger] n0[k].type_ == c.type_;
                assert(new[k].type_ == new[new.len() - 1].type_);
            }
        }
        lemma_condition_of_type(n0, c.type_);
        assert forall|i: int| 0 <= i < rp.len() implies #[trigger] rp[i].type_ == e[i].type_ by {
            lemma_condition_of_type(n0, e[i].type_);
        }
        ap.filter_lemma(|x: ConditionV| !has_type(e, x.type_));
        assert forall|j: int| 0 <= j < ap.len() implies #[trigger] ap[j].type_ != c.type_ by {
            n0.lemma_filter_contains_rev(|x: ConditionV| !has_type(e, x.type_), ap[j]);
            let k = choose|k: int| 0 <= k < n0.len() && n0[k] == ap[j];
            assert(n0[k].type_ == ap[j].type_);
        }
        lemma_type_index(prev, c.type_);
        if has_type(e, c.type_) {
            let i = choose|i: int| 0 <= i < e.len() && #[trigger] e[i].type_ == c.type_;
            assert(prev[i].type_ == c.type_);
            assert forall|k: int| 0 <= k < i implies prev[k].type_ != c.type_ by {
                assert(prev[k] == rp[k]);
                assert(rp[k].type_ == e[k].type_);
            }
            match type_index(prev, c.type_) {
                Some(j) => {
                    if j < i {
                        assert(prev[j].type_ != c.type_);
                    } else if j > i {
                        assert(prev[i].type_ == c.type_);
                    }
                },
                None => {
                    assert(prev[i].type_ == c.type_);
                },
            }
            assert(type_index(prev, c.type_) == Some(i));
            let r = upsert_all(e, new);
            assert(r == prev.update(i, c));
            assert(appended(e, new) =~= ap) by {
                assert(new.drop_last() == n0);
            }
            assert forall|k: int| 0 <= k < e.len() implies #[trigger] replaced(e, new)[k] == (if k == i { c } else { rp[k] }) by {
                if k != i {
                    assert(e[k].type_ != c.type_);
                }
            }
            assert(r =~= replaced(e, new) + appended(e, new));
        } else {
            assert forall|k: int| 0 <= k < prev.len() implies prev[k].type_ != c.type_ by {
                if k < rp.len() {
                    assert(prev[k] == rp[k]);
                    assert(e[k].type_ == rp[k].type_);
                    if e[k].type_ == c.type_ {
                        assert(has_type(e, c.type_));
                    }
                } else {
                    assert(prev[k] == ap[k - rp.len()]);
                }
            }
            assert(type_index(prev, c.type_) is None);
            let r = upsert_all(e, new);
            assert(r == prev.push(c));
            assert(appended(e, new) =~= ap.push(c)) by {
                assert(new.drop_last() == n0);
            }
            assert forall|k: int| 0 <= k < e.len() implies #[trigger] replaced(e, new)[k] == rp[k] by {
                if e[k].type_ == c.type_ {
                    assert(has_type(e, c.type_));
                }
            }
            assert(r =~= replaced(e, new) + appended(e, new));
        }
    }
}

/// Replace the conditions of the types in `new`, keep the others, append new types.
pub fn upsert_conditions(
    existing: Option<&[NiphasCondition]>,
    new: Vec<NiphasCondition>,
) -> (r: Vec<NiphasCondition>)
    ensures
        conds_view(r@) == upsert_all(
            match existing {
                Some(e) => conds_view(e@),
                None => Seq::empty(),
            },
            conds_view(new@),
        ),
{
    let mut result: Vec<NiphasCondition> = Vec::new();
    match existing {
        Some(e) => {
            let mut i: usize = 0;
            while i < e.len()
                invariant
                    i <= e@.len(),
                    conds_view(result@) == conds_view(e@).take(i as int),
                decreases e@.len() - i,
            {
                let c = e[i].clone();
                let ghost before = conds_view(result@);
                result.push(c);
                proof {
                    assert(conds_view(result@) =~= before.push(c.view()));
                    assert(conds_view(e@).take(i + 1) =~= conds_view(e@).take(i as int).push(
                        e@[i as int].view(),
                    ));
                }
                i += 1;
            }
            proof {
                assert(conds_view(e@).take(i as int) =~= conds_view(e@));
            }
        },
        None => {
            proof {
                assert(conds_view(result@) =~= Seq::<ConditionV>::empty());
            }
        },
    }
    let ghost base = conds_view(result@);
    let mut k: usize = 0;
    proof {
        assert(conds_view(new@).take(0) =~= Seq::<ConditionV>::empty());
    }
    while k < new.len()
        invariant
            k <= new@.len(),
            conds_view(result@) == upsert_all(base, conds_view(new@).take(k as int)),
        decreases new@.len() - k,
    {
        let c = new[k].clone();
        let ghost before = conds_view(result@);
        let mut pos: usize = 0;
        while pos < result.len() && !str_eq(result[pos].type_.as_str(), c.type_.as_str())
            invariant
                pos <= result@.len(),
                conds_view(result@) == before,
                forall|j: int| 0 <= j < pos ==> result@[j].type_@ != c.type_@,
            decreases result@.len() - pos,
        {
            pos += 1;
        }
        proof {
            lemma_type_index(before, c.type_@);
            assert(conds_view(new@).take(k + 1).drop_last() =~= conds_view(new@).take(k as int));
            assert(conds_view(new@).take(k + 1).last() == c.view());
            if pos < result@.len() {
                assert(before[pos as int].type_ == c.type_@);
                assert(forall|j: int| 0 <= j < pos ==> before[j].type_ != c.type_@);
                assert(type_index(before, c.type_@) == Some(pos as int));
            } else {
                assert(forall|j: int| 0 <= j < before.len() ==> before[j].type_ != c.type_@);
                assert(type_index(before, c.type_@) is None);
            }
        }
        if pos < result.len() {
            result.set(pos, c);
            proof {
                assert(conds_view(result@) =~= before.update(pos as int, c.view()));
            }
        } else {
            result.push(c);
            proof {
                assert(conds_view(result@) =~= before.push(c.view()));
            }
        }
        k += 1;
    }
    proof {
        assert(conds_view(new@).take(k as int) =~= conds_view(new@));
    }
    result
}

/// `c` has the given type, status, reason, message and generation.
pub open spec fn condition_is(
    c: ConditionV,
    type_: Seq<char>,
    status: ConditionStatus,
    reason: Seq<char>,
    message: Seq<char>,
    generation: i64,
) -> bool {
    &&& c.type_ == type_
    &&& c.status == status
    &&& c.reason == reason
    &&& c.message == message
    &&& c.observed_generation == Some(generation)
}

/// The conditions of a successful reconcile: `Evaluated`, `Progressing`, and `Available`
/// once the workload runs.
pub fn build_success_conditions(
    eval: &EvalResponse,
    phase: WorkloadPhase,
    ready: i32,
    desired: i32,
    generation: i64,
) -> (r: Vec<NiphasCondition>)
    ensures
        r@.len() == if phase == WorkloadPhase::Running { 3int } else { 2int },
        condition_is(
            r@[0].view(),
            "Evaluated"@,
            ConditionStatus::True,
            "EvalSucceeded"@,
            "Resolved "@ + eval.store_path@,
            generation,
        ),
        condition_is(
            r@[1].view(),
            "Progressing"@,
            if phase == WorkloadPhase::Running {
                ConditionStatus::False
            } else {
                ConditionStatus::True
            },
            if phase == WorkloadPhase::Running {
                "NewReplicaSetAvailable"@
            } else {
                "ReplicaSetUpdated"@
            },
            signed_decimal(ready as int) + " of "@ + signed_decimal(desired as int)
                + " replicas ready"@,
            generation,
        ),
        phase == WorkloadPhase::Running ==> condition_is(
            r@[2].view(),
            "Available"@,
            ConditionStatus::True,
            "ReplicasReady"@,
            "All "@ + signed_decimal(ready as int) + " replicas are ready"@,
            generation,
        ),
{
    let running = phase == WorkloadPhase::Running;
    let mut m1 = String::new();
    push_str(&mut m1, "Resolved ");
    push_str(&mut m1, eval.store_path.as_str());
    let mut m2 = String::new();
    push_i64(&mut m2, ready as i64);
    push_str(&mut m2, " of ");
    push_i64(&mut m2, desired as i64);
    push_str(&mut m2, " replicas ready");
    let mut conditions: Vec<NiphasCondition> = Vec::new();
    conditions.push(
        make_condition("Evaluated", ConditionStatus::True, "EvalSucceeded", m1.as_str(), generation),
    );
    if running {
        conditions.push(
            make_condition(
                "Progressing",
                ConditionStatus::False,
                "NewReplicaSetAvailable",
                m2.as_str(),
                generation,
            ),
        );
        let mut m3 = String::new();
        push_str(&mut m3, "All ");
        push_i64(&mut m3, ready as i64);
        push_str(&mut m3, " replicas are ready");
        conditions.push(
            make_condition(
                "Available",
                ConditionStatus::True,
                "ReplicasReady",
                m3.as_str(),
                generation,
            ),
        );
    } else {
        conditions.push(
            make_condition(
                "Progressing",
                ConditionStatus::True,
                "ReplicaSetUpdated",
                m2.as_str(),
                generation,
            ),
        );
    }
    conditions
}

/// The conditions of a failed evaluation: `Evaluated` is false with the reason.
pub fn build_failed_conditions(reason: &str, message: &str, generation: i64) -> (r: Vec<
    NiphasCondition,
>)
    ensures
        r@.len() == 1,
        condition_is(
            r@[0].view(),
            "Evaluated"@,
            ConditionStatus::False,
            reason@,
            message@,
            generation,
        ),
{
    let mut v: Vec<NiphasCondition> = Vec::new();
    v.push(make_condition("Evaluated", ConditionStatus::False, reason, message, generation));
    v
}

// ---------------------------------------------------------------------------
// Deciding
// ---------------------------------------------------------------------------

/// What the reconciler reads of a workload.
pub struct WorkloadState<'a> {
    pub name: String,
    pub namespace: String,
    pub generation: i64,
    pub deletion_pending: bool,
    pub has_finalizer: bool,
    pub existing_finalizers: Vec<String>,
    pub observed_generation: i64,
    pub phase: Option<WorkloadPhase>,
    pub status: Option<&'a NiphasWorkloadStatus>,
    pub desired_replicas: i32,
}

fn copy_text(s: &str) -> (r: String)
    ensures
        r@ == s@,
{
    let mut r = String::new();
    push_str(&mut r, s);
    r
}

fn copy_texts(v: &Vec<String>) -> (r: Vec<String>)
    ensures
        r@.len() == v@.len(),
        forall|i: int| 0 <= i < v@.len() ==> #[trigger] r@[i]@ == v@[i]@,
{
    let mut out: Vec<String> = Vec::new();
    let mut i: usize = 0;
    while i < v.len()
        invariant
            i <= v@.len(),
            out@.len() == i,
            forall|k: int| 0 <= k < i ==> #[trigger] out@[k]@ == v@[k]@,
        decreases v@.len() - i,
    {
        out.push(copy_text(v[i].as_str()));
        i += 1;
    }
    out
}

/// The conditions recorded in the state's status.
pub open spec fn existing_conditions(state: WorkloadState) -> Seq<ConditionV> {
    match state.status {
        Some(s) => match s.conditions {
            Some(c) => conds_view(c@),
            None => Seq::empty(),
        },
        None => Seq::empty(),
    }
}

/// The texts of the strings.
pub open spec fn texts_of(v: Seq<String>) -> Seq<Seq<char>> {
    Seq::new(v.len(), |i: int| v[i]@)
}

impl<'a> WorkloadState<'a> {
    /// What the reconciler reads of a workload.
    pub fn from_workload(workload: &'a NiphasWorkload) -> (r: WorkloadState<'a>)
        ensures
            r.name@ == match workload.metadata.name {
                Some(n) => n@,
                None => Seq::empty(),
            },
            r.namespace@ == match workload.metadata.namespace {
                Some(n) => n@,
                None => Seq::empty(),
            },
            r.generation == match workload.metadata.generation {
                Some(g) => g,
                None => 0,
            },
            r.deletion_pending == workload.metadata.deletion_pending,
            texts_of(r.existing_finalizers@) == match workload.metadata.finalizers {
                Some(f) => texts_of(f@),
                None => Seq::empty(),
            },
            r.has_finalizer == texts_of(r.existing_finalizers@).contains(FINALIZER@),
            r.observed_generation == match workload.status {
                Some(s) => match s.observed_generation {
                    Some(g) => g,
                    None => 0,
                },
                None => 0,
            },
            r.phase == match workload.status {
                Some(s) => Some(s.phase),
                None => None,
            },
            r.status == match workload.status {
                Some(s) => Some(&s),
                None => None::<&NiphasWorkloadStatus>,
            },
            r.desired_replicas == match workload.spec.replicas {
                Some(n) => n,
                None => 1,
            },
    {
        let status = match &workload.status {
            Some(s) => Some(s),
            None => None,
        };
        let finalizers = match &workload.metadata.finalizers {
            Some(f) => copy_texts(f),
            None => Vec::new(),
        };
        proof {
            if let Some(f) = &workload.metadata.finalizers {
                assert(texts_of(finalizers@) =~= texts_of(f@));
            } else {
                assert(texts_of(finalizers@) =~= Seq::<Seq<char>>::empty());
            }
        }
        let mut has_finalizer = false;
        let mut i: usize = 0;
        while i < finalizers.len()
            invariant
                i <= finalizers@.len(),
                has_finalizer == exists|k: int| 0 <= k < i && finalizers@[k]@ == FINALIZER@,
            decreases finalizers@.len() - i,
        {
            if str_eq(finalizers[i].as_str(), FINALIZER) {
                has_finalizer = true;
            }
            i += 1;
        }
        proof {
            if has_finalizer {
                let k = choose|k: int| 0 <= k < i && finalizers@[k]@ == FINALIZER@;
                assert(texts_of(finalizers@)[k] == FINALIZER@);
            }
            if texts_of(finalizers@).contains(FINALIZER@) {
                let k = choose|k: int| 0 <= k < texts_of(finalizers@).len() && texts_of(finalizers@)[k] == FINALIZER@;
                assert(finalizers@[k]@ == FINALIZER@);
            }
        }
        WorkloadState {
            name: match &workload.metadata.name {
                Some(n) => copy_text(n.as_str()),
                None => String::new(),
            },
            namespace: match &workload.metadata.namespace {
                Some(n) => copy_text(n.as_str()),
                None => String::new(),
            },
            generation: match workload.metadata.generation {
                Some(g) => g,
                None => 0,
            },
            deletion_pending: workload.metadata.deletion_pending,
            has_finalizer,
            existing_finalizers: finalizers,
            observed_generation: match status {
                Some(s) => match s.observed_generation {
                    Some(g) => g,
                    None => 0,
                },
                None => 0,
            },
            phase: match status {
                Some(s) => Some(s.phase),
                None => None,
            },
            status,
            desired_replicas: match workload.spec.replicas {
                Some(n) => n,
                None => 1,
            },
        }
    }
}

/// What the reconciler does next.
#[derive(Debug, PartialEq)]
pub enum ReconcileDecision {
    HandleDeletion,
    AddFinalizer { existing_finalizers: Vec<String> },
    UpToDate,
    RunEval,
    Provision { eval_result: EvalResponse },
    UpdateStatus { eval_result: EvalResponse, ready_replicas: i32, desired_replicas: i32 },
}

/// The inputs on which rebuilding the cached eval result would cut a character in two.
pub open spec fn decide_panics(state: WorkloadState) -> bool {
    state.status matches Some(st) && st.store_path matches Some(sp) && store_path_parse_panics(
        sp@,
    )
}

/// Whether `decide` cannot take `state`: it would rebuild the recorded eval result from a
/// store path whose basename it slices inside a character.
pub fn decide_would_panic(state: &WorkloadState) -> (r: bool)
    ensures
        r == (!state.deletion_pending && state.has_finalizer && !(state.observed_generation
            >= state.generation && state.phase == Some(WorkloadPhase::Running))
            && state.observed_generation >= state.generation && decide_panics(*state)),
{
    if state.deletion_pending || !state.has_finalizer || state.observed_generation < state.generation {
        return false;
    }
    let running = match state.phase {
        Some(WorkloadPhase::Running) => true,
        _ => false,
    };
    if running {
        return false;
    }
    match state.status {
        Some(st) => match &st.store_path {
            Some(sp) => crate::store_path::parse_would_panic(sp.as_str()),
            None => false,
        },
        None => false,
    }
}

/// Decide what to do with a workload: deletion first, then the finalizer, then nothing
/// when the current generation runs, else evaluate (on a new generation, or when no
/// evaluation is recorded) or provision the recorded result.
pub fn decide(state: &WorkloadState) -> (r: ReconcileDecision)
    requires
        !(!state.deletion_pending && state.has_finalizer && !(state.observed_generation
            >= state.generation && state.phase == Some(WorkloadPhase::Running))
            && state.observed_generation >= state.generation && decide_panics(*state)),
    ensures
        state.deletion_pending ==> r is HandleDeletion,
        !state.deletion_pending && !state.has_finalizer ==> (r matches ReconcileDecision::AddFinalizer {
            existing_finalizers,
        } && texts_of(existing_finalizers@) == texts_of(state.existing_finalizers@)),
        !state.deletion_pending && state.has_finalizer && state.observed_generation
            >= state.generation && state.phase == Some(WorkloadPhase::Running) ==> r is UpToDate,
        !state.deletion_pending && state.has_finalizer && state.observed_generation
            < state.generation ==> r is RunEval,
        !state.deletion_pending && state.has_finalizer && state.observed_generation
            >= state.generation && state.phase != Some(WorkloadPhase::Running) ==> match state.status {
            Some(st) => match st.store_path {
                Some(sp) => (r matches ReconcileDecision::Provision { eval_result }
                    && recorded_eval_result(*st, eval_result)),
                None => r is RunEval,
            },
            None => r is RunEval,
        },
{
    if state.deletion_pending {
        return ReconcileDecision::HandleDeletion;
    }
    if !state.has_finalizer {
        let f = copy_texts(&state.existing_finalizers);
        proof {
            assert(texts_of(f@) =~= texts_of(state.existing_finalizers@));
        }
        return ReconcileDecision::AddFinalizer { existing_finalizers: f };
    }
    let running = match state.phase {
        Some(WorkloadPhase::Running) => true,
        _ => false,
    };
    if state.observed_generation >= state.generation && running {
        return ReconcileDecision::UpToDate;
    }
    if state.observed_generation < state.generation {
        return ReconcileDecision::RunEval;
    }
    match state.status {
        Some(st) => match eval_result_from_status(st) {
            Some(cached) => ReconcileDecision::Provision { eval_result: cached },
            None => ReconcileDecision::RunEval,
        },
        None => ReconcileDecision::RunEval,
    }
}

// ---------------------------------------------------------------------------
// Events
// ---------------------------------------------------------------------------

/// A Kubernetes event to publish on the workload: its type (`Warning` or `Normal`), its
/// reason (also its action) and its note.
#[derive(Debug)]
pub struct EventNote {
    pub warning: bool,
    pub reason: String,
    pub note: String,
}

fn normal_event(reason: &str, note: String) -> (e: EventNote)
    ensures
        !e.warning,
        e.reason@ == reason@,
        e.note@ == note@,
{
    let mut r = String::new();
    push_str(&mut r, reason);
    EventNote { warning: false, reason: r, note }
}

fn text_of(s: &str) -> (r: String)
    ensures
        r@ == s@,
{
    let mut r = String::new();
    push_str(&mut r, s);
    r
}

/// The event of a workload being deleted.
pub fn deletion_event(name: &str) -> (e: EventNote)
    ensures
        !e.warning,
        e.reason@ == "Deleting"@,
        e.note@ == "Cleaning up workload "@ + name@,
{
    let mut note = String::new();
    push_str(&mut note, "Cleaning up workload ");
    push_str(&mut note, name);
    normal_event("Deleting", note)
}

/// The event of an evaluation starting.
pub fn eval_started_event() -> (e: EventNote)
    ensures
        !e.warning,
        e.reason@ == "EvalStarted"@,
        e.note@ == "Starting flake evaluation"@,
{
    normal_event("EvalStarted", text_of("Starting flake evaluation"))
}

/// The event of an evaluation that resolved `store_path`.
pub fn eval_succeeded_event(store_path: &str) -> (e: EventNote)
    ensures
        !e.warning,
        e.reason@ == "EvalSucceeded"@,
        e.note@ == "Resolved store path: "@ + store_path@,
{
    let mut note = String::new();
    push_str(&mut note, "Resolved store path: ");
    push_str(&mut note, store_path);
    normal_event("EvalSucceeded", note)
}

/// The warning of a failed evaluation: the error's reason and message.
pub fn eval_failed_event(error: &OperatorError) -> (e: EventNote)
    ensures
        e.warning,
        e.reason@ == error.reason_text(),
        e.note@ == error.message_text(),
{
    let (reason, note) = error.reason_and_message();
    EventNote { warning: true, reason, note }
}

/// The event of the child resources being applied.
pub fn provisioned_event() -> (e: EventNote)
    ensures
        !e.warning,
        e.reason@ == "Provisioned"@,
        e.note@ == "Child resources applied"@,
{
    normal_event("Provisioned", text_of("Child resources applied"))
}

/// The event of every desired replica being ready, when they are.
pub fn available_event(ready_replicas: i32, desired_replicas: i32) -> (e: Option<EventNote>)
    ensures
        match e {
            Some(n) => ready_replicas >= desired_replicas && !n.warning && n.reason@ == "Available"@
                && n.note@ == "All replicas ready"@,
            None => ready_replicas < desired_replicas,
        },
{
    if ready_replicas >= desired_replicas {
        Some(normal_event("Available", text_of("All replicas ready")))
    } else {
        None
    }
}

// ---------------------------------------------------------------------------
// Patches
// ---------------------------------------------------------------------------

/// The finalizers with the operator's own added at the end.
pub open spec fn finalizers_added(existing: Seq<Seq<char>>) -> Seq<Seq<char>> {
    existing.push(FINALIZER@)
}

/// `{"metadata": {"finalizers": [..existing, FINALIZER]}}`, the patch that adds the
/// finalizer.
pub fn finalizer_patch(existing: &Vec<String>) -> (r: Json)
    ensures
        r.view() == JsonV::Obj(
            seq![
                ("metadata"@, JsonV::Obj(
                    seq![("finalizers"@, str_array(finalizers_added(texts_of(existing@))))],
                )),
            ],
        ),
{
    let mut f = copy_texts(existing);
    f.push(copy_text(FINALIZER));
    proof {
        assert(Seq::new(f@.len(), |i: int| f@[i]@) =~= finalizers_added(texts_of(existing@)));
    }
    single("metadata", single("finalizers", jstr_array(&f)))
}

/// The finalizers without the operator's own.
pub open spec fn finalizers_removed(existing: Seq<Seq<char>>) -> Seq<Seq<char>> {
    existing.filter(|f: Seq<char>| f != FINALIZER@)
}

/// `{"metadata": {"finalizers": ..}}` without the operator's finalizer: `null` when none
/// is left.
pub fn remove_finalizer_patch(existing: &Vec<String>) -> (r: Json)
    ensures
        r.view() == JsonV::Obj(
            seq![
                ("metadata"@, JsonV::Obj(
                    seq![("finalizers"@, if finalizers_removed(texts_of(existing@)).len() == 0 {
                        JsonV::Null
                    } else {
                        str_array(finalizers_removed(texts_of(existing@)))
                    })],
                )),
            ],
        ),
{
    let mut kept: Vec<String> = Vec::new();
    let mut i: usize = 0;
    let ghost all = texts_of(existing@);
    while i < existing.len()
        invariant
            i <= existing@.len(),
            all == texts_of(existing@),
            texts_of(kept@) == finalizers_removed(all.take(i as int)),
        decreases existing@.len() - i,
    {
        proof {
            assert(all.take(i + 1) =~= all.take(i as int).push(all[i as int]));
            reveal(Seq::filter);
            assert(all.take(i + 1).drop_last() =~= all.take(i as int));
        }
        if !str_eq(existing[i].as_str(), FINALIZER) {
            let ghost before = texts_of(kept@);
            kept.push(copy_text(existing[i].as_str()));
            proof {
                assert(texts_of(kept@) =~= before.push(all[i as int]));
            }
        }
        i += 1;
    }
    proof {
        assert(all.take(i as int) =~= all);
        assert(Seq::new(kept@.len(), |k: int| kept@[k]@) =~= texts_of(kept@));
    }
    let v = if kept.len() == 0 {
        Json::Null
    } else {
        jstr_array(&kept)
    };
    single("metadata", single("finalizers", v))
}

/// `{"status": {"phase": ..}}`.
pub fn phase_patch(phase: WorkloadPhase) -> (r: Json)
    ensures
        r.view() == JsonV::Obj(
            seq![("status"@, JsonV::Obj(seq![("phase"@, JsonV::Str(phase.name()))]))],
        ),
{
    single("status", single("phase", jstr(phase.as_str())))
}

/// A condition as the JSON the status carries.
pub open spec fn condition_json(c: ConditionV) -> JsonV {
    JsonV::Obj(
        seq![
            ("type"@, JsonV::Str(c.type_)),
            ("status"@, JsonV::Str(c.status.name())),
            ("reason"@, JsonV::Str(c.reason)),
            ("message"@, JsonV::Str(c.message)),
            ("lastTransitionTime"@, JsonV::Str(c.last_transition_time)),
        ] + match c.observed_generation {
            Some(g) => seq![("observedGeneration"@, JsonV::Int(g as int))],
            None => Seq::empty(),
        },
    )
}

fn condition_to_json(c: &NiphasCondition) -> (r: Json)
    ensures
        r.view() == condition_json(c.view()),
{
    let mut m: Vec<Member> = Vec::new();
    proof {
        assert(obj_view(m@) =~= Seq::<(Seq<char>, JsonV)>::empty());
    }
    push_member(&mut m, "type", jstr(c.type_.as_str()));
    push_member(&mut m, "status", jstr(c.status.as_str()));
    push_member(&mut m, "reason", jstr(c.reason.as_str()));
    push_member(&mut m, "message", jstr(c.message.as_str()));
    push_member(&mut m, "lastTransitionTime", jstr(c.last_transition_time.as_str()));
    match c.observed_generation {
        Some(g) => {
            push_member(&mut m, "observedGeneration", Json::Int(g));
        },
        None => {},
    }
    proof {
        assert(obj_view(m@) =~= match condition_json(c.view()) {
            JsonV::Obj(x) => x,
            _ => Seq::empty(),
        });
    }
    Json::Obj(m)
}

/// The status a reconcile writes.
pub struct StatusPatch<'a> {
    pub phase: WorkloadPhase,
    pub generation: i64,
    pub eval_result: Option<&'a EvalResponse>,
    pub ready_replicas: Option<i32>,
    pub conditions: Vec<NiphasCondition>,
}

/// The members of the status a patch writes.
pub open spec fn status_members(p: StatusPatch) -> Seq<(Seq<char>, JsonV)> {
    seq![
        ("phase"@, JsonV::Str(p.phase.name())),
        ("observedGeneration"@, JsonV::Int(p.generation as int)),
        ("conditions"@, JsonV::Arr(
            Seq::new(p.conditions@.len(), |i: int| condition_json(p.conditions@[i].view())),
        )),
    ] + match p.eval_result {
        Some(e) => seq![
            ("storePath"@, JsonV::Str(e.store_path@)),
            ("resolvedCommand"@, JsonV::Str(resolved_command_text(*e))),
            ("closurePaths"@, str_array(texts_of(e.closure_paths@))),
        ],
        None => Seq::empty(),
    } + match p.ready_replicas {
        Some(n) => seq![("readyReplicas"@, JsonV::Int(n as int))],
        None => Seq::empty(),
    }
}

/// `{"status": {...}}`, the merge patch that writes the status.
pub open spec fn status_patch_json(p: StatusPatch) -> JsonV {
    JsonV::Obj(seq![("status"@, JsonV::Obj(status_members(p)))])
}

/// The status object a patch writes.
pub open spec fn patched_status(p: StatusPatch) -> JsonV {
    member_of(status_patch_json(p), "status"@).unwrap()
}

/// A status patch records the phase and the generation it observed; when it carries an
/// evaluation, the store path, the command and the closure paths of that evaluation
/// (and nothing of them otherwise); and the ready replicas when it counts them.
pub proof fn lemma_status_patch_records(p: StatusPatch)
    ensures
        member_of(status_patch_json(p), "status"@) is Some,
        member_of(patched_status(p), "phase"@) == Some(JsonV::Str(p.phase.name())),
        member_of(patched_status(p), "observedGeneration"@) == Some(JsonV::Int(p.generation as int)),
        member_of(patched_status(p), "storePath"@) == match p.eval_result {
            Some(e) => Some(JsonV::Str(e.store_path@)),
            None => None,
        },
        member_of(patched_status(p), "resolvedCommand"@) == match p.eval_result {
            Some(e) => Some(JsonV::Str(resolved_command_text(*e))),
            None => None,
        },
        member_of(patched_status(p), "closurePaths"@) == match p.eval_result {
            Some(e) => Some(
                JsonV::Arr(Seq::new(e.closure_paths@.len(), |i: int| JsonV::Str(e.closure_paths@[i]@))),
            ),
            None => None,
        },
        member_of(patched_status(p), "readyReplicas"@) == match p.ready_replicas {
            Some(n) => Some(JsonV::Int(n as int)),
            None => None,
        },
{
    reveal_with_fuel(first_member, 4);
    reveal_strlit("status");
    let a = seq![
        ("phase"@, JsonV::Str(p.phase.name())),
        ("observedGeneration"@, JsonV::Int(p.generation as int)),
        ("conditions"@, JsonV::Arr(
            Seq::new(p.conditions@.len(), |i: int| condition_json(p.conditions@[i].view())),
        )),
    ];
    let b: Seq<(Seq<char>, JsonV)> = match p.eval_result {
        Some(e) => seq![
            ("storePath"@, JsonV::Str(e.store_path@)),
            ("resolvedCommand"@, JsonV::Str(resolved_command_text(*e))),
            ("closurePaths"@, str_array(texts_of(e.closure_paths@))),
        ],
        None => Seq::empty(),
    };
    let c: Seq<(Seq<char>, JsonV)> = match p.ready_replicas {
        Some(n) => seq![("readyReplicas"@, JsonV::Int(n as int))],
        None => Seq::empty(),
    };
    assert(status_members(p) == a + b + c);
    assert(patched_status(p) == JsonV::Obj(a + b + c));
    reveal_strlit("phase");
    reveal_strlit("observedGeneration");
    reveal_strlit("conditions");
    reveal_strlit("storePath");
    reveal_strlit("resolvedCommand");
    reveal_strlit("closurePaths");
    reveal_strlit("readyReplicas");
    assert(a.skip(1) =~= seq![a[1], a[2]]);
    assert(a.skip(1).skip(1) =~= seq![a[2]]);
    assert(a.skip(1).skip(1).skip(1).len() == 0);
    if b.len() > 0 {
        assert(b.skip(1) =~= seq![b[1], b[2]]);
        assert(b.skip(1).skip(1) =~= seq![b[2]]);
        assert(b.skip(1).skip(1).skip(1).len() == 0);
    }
    assert(c.len() == 1 ==> c.skip(1).len() == 0);
    assert("phase"@[0] != "observedGeneration"@[0] && "phase"@[0] != "conditions"@[0]
        && "phase"@[0] != "storePath"@[0] && "phase"@[0] != "resolvedCommand"@[0]
        && "phase"@[0] != "closurePaths"@[0] && "phase"@[0] != "readyReplicas"@[0]);
    assert("observedGeneration"@[0] != "conditions"@[0] && "observedGeneration"@[0] != "storePath"@[0]
        && "observedGeneration"@[0] != "resolvedCommand"@[0] && "observedGeneration"@[0]
        != "closurePaths"@[0] && "observedGeneration"@[0] != "readyReplicas"@[0]);
    assert("conditions"@[0] != "storePath"@[0] && "conditions"@[0] != "resolvedCommand"@[0]
        && "conditions"@[1] != "closurePaths"@[1] && "conditions"@[0] != "readyReplicas"@[0]);
    assert("storePath"@[0] != "resolvedCommand"@[0] && "storePath"@[0] != "closurePaths"@[0]
        && "storePath"@[0] != "readyReplicas"@[0]);
    assert("resolvedCommand"@[0] != "closurePaths"@[0] && "resolvedCommand"@[2] != "readyReplicas"@[2]);
    assert("closurePaths"@[0] != "readyReplicas"@[0]);
    lemma_first_member_concat(a, b, "phase"@);
    lemma_first_member_concat(a + b, c, "phase"@);
    lemma_first_member_concat(a, b, "observedGeneration"@);
    lemma_first_member_concat(a + b, c, "observedGeneration"@);
    lemma_first_member_concat(a, b, "storePath"@);
    lemma_first_member_concat(a + b, c, "storePath"@);
    lemma_first_member_concat(a, b, "resolvedCommand"@);
    lemma_first_member_concat(a + b, c, "resolvedCommand"@);
    lemma_first_member_concat(a, b, "closurePaths"@);
    lemma_first_member_concat(a + b, c, "closurePaths"@);
    lemma_first_member_concat(a, b, "readyReplicas"@);
    lemma_first_member_concat(a + b, c, "readyReplicas"@);
    if let Some(e) = p.eval_result {
        let cp = e.closure_paths@;
        let x = Seq::new(texts_of(cp).len(), |i: int| JsonV::Str(texts_of(cp)[i]));
        let y = Seq::new(cp.len(), |i: int| JsonV::Str(cp[i]@));
        assert(x =~= y);
    }
}

pub fn status_patch_body(patch: &StatusPatch) -> (r: Json)
    ensures
        r.view() == status_patch_json(*patch),
{
    let mut conds: Vec<Json> = Vec::new();
    let mut i: usize = 0;
    while i < patch.conditions.len()
        invariant
            i <= patch.conditions@.len(),
            arr_view(conds@) == Seq::new(i as nat, |k: int| condition_json(patch.conditions@[k].view())),
        decreases patch.conditions@.len() - i,
    {
        let j = condition_to_json(&patch.conditions[i]);
        proof {
            lemma_arr_view_push(conds@, j);
        }
        conds.push(j);
        proof {
            assert(arr_view(conds@) =~= Seq::new((i + 1) as nat, |k: int| condition_json(patch.conditions@[k].view())));
        }
        i += 1;
    }
    let mut m: Vec<Member> = Vec::new();
    proof {
        assert(obj_view(m@) =~= Seq::<(Seq<char>, JsonV)>::empty());
    }
    push_member(&mut m, "phase", jstr(patch.phase.as_str()));
    push_member(&mut m, "observedGeneration", Json::Int(patch.generation));
    push_member(&mut m, "conditions", Json::Arr(conds));
    let ghost after_conds = obj_view(m@);
    match patch.eval_result {
        Some(e) => {
            push_member(&mut m, "storePath", jstr(e.store_path.as_str()));
            let cmd = e.resolved_command();
            push_member(&mut m, "resolvedCommand", jstr(cmd.as_str()));
            let paths = jstr_array(&e.closure_paths);
            push_member(&mut m, "closurePaths", paths);
            proof {
                assert(Seq::new(e.closure_paths@.len(), |k: int| e.closure_paths@[k]@) =~= texts_of(
                    e.closure_paths@,
                ));
            }
        },
        None => {},
    }
    let ghost after_eval = obj_view(m@);
    match patch.ready_replicas {
        Some(n) => {
            push_member(&mut m, "readyReplicas", Json::Int(n as i64));
        },
        None => {},
    }
    proof {
        assert(obj_view(m@) =~= status_members(*patch));
    }
    single("status", Json::Obj(m))
}

// ---------------------------------------------------------------------------
// Steps
// ---------------------------------------------------------------------------

/// After a failed evaluation: the workload is marked `Failed` with an `Evaluated=False`
/// condition carrying the error's reason and message, and is retried in 30 seconds.
pub fn after_eval_failure<'a>(state: &WorkloadState<'a>, error: &OperatorError) -> (r: (
    StatusPatch<'a>,
    Requeue,
))
    ensures
        r.0.phase == WorkloadPhase::Failed,
        r.0.generation == state.generation,
        r.0.eval_result is None,
        r.0.ready_replicas is None,
        r.1 == Requeue::After(30),
        exists|f: Seq<ConditionV>|
            f.len() == 1 && condition_is(
                f[0],
                "Evaluated"@,
                ConditionStatus::False,
                error.reason_text(),
                error.message_text(),
                state.generation,
            ) && conds_view(r.0.conditions@) == upsert_all(existing_conditions(*state), f),
{
    let (reason, msg) = error.reason_and_message();
    let existing = match state.status {
        Some(s) => match &s.conditions {
            Some(c) => Some(c.as_slice()),
            None => None,
        },
        None => None,
    };
    let failed = build_failed_conditions(reason.as_str(), msg.as_str(), state.generation);
    let ghost fv = conds_view(failed@);
    let conditions = upsert_conditions(existing, failed);
    proof {
        assert(fv[0] == failed@[0].view());
        assert(existing_conditions(*state) == match existing {
            Some(e) => conds_view(e@),
            None => Seq::empty(),
        });
    }
    (
        StatusPatch {
            phase: WorkloadPhase::Failed,
            generation: state.generation,
            eval_result: None,
            ready_replicas: None,
            conditions,
        },
        Requeue::After(30),
    )
}

/// After failing to apply the child resources: `Failed` with an `Evaluated=False`
/// condition of reason `ProvisionFailed`, retried in 10 seconds.
pub fn after_provision_failure<'a>(state: &WorkloadState<'a>, message: &str) -> (r: (
    StatusPatch<'a>,
    Requeue,
))
    ensures
        r.0.phase == WorkloadPhase::Failed,
        r.0.generation == state.generation,
        r.0.eval_result is None,
        r.0.ready_replicas is None,
        r.1 == Requeue::After(10),
        exists|f: Seq<ConditionV>|
            f.len() == 1 && condition_is(
                f[0],
                "Evaluated"@,
                ConditionStatus::False,
                "ProvisionFailed"@,
                message@,
                state.generation,
            ) && conds_view(r.0.conditions@) == upsert_all(existing_conditions(*state), f),
{
    let existing = match state.status {
        Some(s) => match &s.conditions {
            Some(c) => Some(c.as_slice()),
            None => None,
        },
        None => None,
    };
    let failed = build_failed_conditions("ProvisionFailed", message, state.generation);
    let ghost fv = conds_view(failed@);
    let conditions = upsert_conditions(existing, failed);
    proof {
        assert(fv[0] == failed@[0].view());
        assert(existing_conditions(*state) == match existing {
            Some(e) => conds_view(e@),
            None => Seq::empty(),
        });
    }
    (
        StatusPatch {
            phase: WorkloadPhase::Failed,
            generation: state.generation,
            eval_result: None,
            ready_replicas: None,
            conditions,
        },
        Requeue::After(10),
    )
}

/// Recording a provisioned workload: `Running` once all replicas are ready (else
/// `Provisioning`), with the success conditions; checked again in 5 seconds while
/// replicas are missing, else in 300.
pub fn update_status_step<'a>(
    state: &WorkloadState<'a>,
    eval_result: &'a EvalResponse,
    ready_replicas: i32,
    desired_replicas: i32,
) -> (r: (StatusPatch<'a>, Requeue))
    ensures
        r.0.phase == if ready_replicas >= desired_replicas {
            WorkloadPhase::Running
        } else {
            WorkloadPhase::Provisioning
        },
        r.0.generation == state.generation,
        r.0.eval_result == Some(eval_result),
        r.0.ready_replicas == Some(ready_replicas),
        r.1 == if ready_replicas < desired_replicas {
            Requeue::After(5)
        } else {
            Requeue::After(300)
        },
        exists|f: Seq<ConditionV>|
            f.len() == if ready_replicas >= desired_replicas { 3int } else { 2int } && condition_is(
                f[0],
                "Evaluated"@,
                ConditionStatus::True,
                "EvalSucceeded"@,
                "Resolved "@ + eval_result.store_path@,
                state.generation,
            ) && condition_is(
                f[1],
                "Progressing"@,
                if ready_replicas >= desired_replicas {
                    ConditionStatus::False
                } else {
                    ConditionStatus::True
                },
                if ready_replicas >= desired_replicas {
                    "NewReplicaSetAvailable"@
                } else {
                    "ReplicaSetUpdated"@
                },
                signed_decimal(ready_replicas as int) + " of "@ + signed_decimal(desired_replicas as int)
                    + " replicas ready"@,
                state.generation,
            ) && (ready_replicas >= desired_replicas ==> condition_is(
                f[2],
                "Available"@,
                ConditionStatus::True,
                "ReplicasReady"@,
                "All "@ + signed_decimal(ready_replicas as int) + " replicas are ready"@,
                state.generation,
            )) && conds_view(r.0.conditions@) == upsert_all(
                existing_conditions(*state),
                f,
            ),
{
    let phase = if ready_replicas >= desired_replicas {
        WorkloadPhase::Running
    } else {
        WorkloadPhase::Provisioning
    };
    let existing = match state.status {
        Some(s) => match &s.conditions {
            Some(c) => Some(c.as_slice()),
            None => None,
        },
        None => None,
    };
    let built = build_success_conditions(
        eval_result,
        phase,
        ready_replicas,
        desired_replicas,
        state.generation,
    );
    let ghost fv = conds_view(built@);
    let conditions = upsert_conditions(existing, built);
    proof {
        assert(fv[0] == built@[0].view());
        assert(fv[1] == built@[1].view());
        if ready_replicas >= desired_replicas {
            assert(fv[2] == built@[2].view());
        }
        assert(existing_conditions(*state) == match existing {
            Some(e) => conds_view(e@),
            None => Seq::empty(),
        });
    }
    let interval = if ready_replicas < desired_replicas {
        Requeue::After(5)
    } else {
        Requeue::After(300)
    };
    (
        StatusPatch {
            phase,
            generation: state.generation,
            eval_result: Some(eval_result),
            ready_replicas: Some(ready_replicas),
            conditions,
        },
        interval,
    )
}

/// Where the reconcile goes after deletion was handled, the finalizer added, or the
/// workload found up to date.
pub fn settled_requeue(decision: &ReconcileDecision) -> (r: Option<Requeue>)
    ensures
        r == match decision {
            ReconcileDecision::HandleDeletion => Some(Requeue::AwaitChange),
            ReconcileDecision::AddFinalizer { .. } => Some(Requeue::After(0)),
            ReconcileDecision::UpToDate => Some(Requeue::After(300)),
            _ => None,
        },
{
    match decision {
        ReconcileDecision::HandleDeletion => Some(Requeue::AwaitChange),
        ReconcileDecision::AddFinalizer { .. } => Some(Requeue::After(0)),
        ReconcileDecision::UpToDate => Some(Requeue::After(300)),
        _ => None,
    }
}

/// Where the reconcile goes once the evaluation succeeded: provision its result.
pub fn after_eval_success(result: EvalResponse) -> (d: ReconcileDecision)
    ensures
        d == (ReconcileDecision::Provision { eval_result: result }),
{
    ReconcileDecision::Provision { eval_result: result }
}

/// Where the reconcile goes once the children are applied: record the status, with the
/// ready replicas counted and the replicas the workload asks for.
pub fn after_provision(state: &WorkloadState, eval_result: EvalResponse, ready_replicas: i32) -> (d:
    ReconcileDecision)
    ensures
        d == (ReconcileDecision::UpdateStatus {
            eval_result,
            ready_replicas,
            desired_replicas: state.desired_replicas,
        }),
{
    ReconcileDecision::UpdateStatus {
        eval_result,
        ready_replicas,
        desired_replicas: state.desired_replicas,
    }
}

} // verus!
