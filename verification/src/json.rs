use vstd::prelude::*;
use crate::text::{push_str, str_eq};

verus! {

/// A JSON value as the library builds it; objects keep their keys in order.
///
/// Numbers that are not integers keep their decimal text.
#[derive(Debug, PartialEq)]
pub enum Json {
    Null,
    Bool(bool),
    Int(i64),
    Num(String),
    Str(String),
    Arr(Vec<Json>),
    Obj(Vec<Member>),
}

/// A member of a JSON object.
#[derive(Debug, PartialEq)]
pub struct Member {
    pub key: String,
    pub value: Json,
}

/// A JSON value as mathematical values.
pub enum JsonV {
    Null,
    Bool(bool),
    Int(int),
    Num(Seq<char>),
    Str(Seq<char>),
    Arr(Seq<JsonV>),
    Obj(Seq<(Seq<char>, JsonV)>),
}

impl Json {
    /// The value this JSON holds.
    pub open spec fn view(self) -> JsonV
        decreases self, 1nat,
    {
        match self {
            Json::Null => JsonV::Null,
            Json::Bool(b) => JsonV::Bool(b),
            Json::Int(n) => JsonV::Int(n as int),
            Json::Num(s) => JsonV::Num(s@),
            Json::Str(s) => JsonV::Str(s@),
            Json::Arr(v) => JsonV::Arr(arr_view(v@)),
            Json::Obj(m) => JsonV::Obj(obj_view(m@)),
        }
    }
}

/// The values of a JSON array.
pub open spec fn arr_view(s: Seq<Json>) -> Seq<JsonV>
    decreases s, 0nat,
{
    if s.len() == 0 {
        Seq::empty()
    } else {
        arr_view(s.drop_last()).push(s.last().view())
    }
}

/// The members of a JSON object.
pub open spec fn obj_view(s: Seq<Member>) -> Seq<(Seq<char>, JsonV)>
    decreases s, 0nat,
{
    if s.len() == 0 {
        Seq::empty()
    } else {
        obj_view(s.drop_last()).push((s.last().key@, s.last().value.view()))
    }
}

/// Pushing a value pushes its view.
pub proof fn lemma_arr_view_push(s: Seq<Json>, x: Json)
    ensures
        arr_view(s.push(x)) == arr_view(s).push(x.view()),
{
    assert(s.push(x).drop_last() =~= s);
}

/// Pushing a member pushes its key and the view of its value.
pub proof fn lemma_obj_view_push(s: Seq<Member>, x: Member)
    ensures
        obj_view(s.push(x)) == obj_view(s).push((x.key@, x.value.view())),
{
    assert(s.push(x).drop_last() =~= s);
}

/// The view of an object's members, member by member.
pub proof fn lemma_obj_view_index(s: Seq<Member>)
    ensures
        obj_view(s).len() == s.len(),
        forall|i: int| 0 <= i < s.len() ==> #[trigger] obj_view(s)[i] == (s[i].key@, s[i].value.view()),
    decreases s.len(),
{
    if s.len() > 0 {
        lemma_obj_view_index(s.drop_last());
    }
}

/// The view of an array's items, item by item.
pub proof fn lemma_arr_view_index(s: Seq<Json>)
    ensures
        arr_view(s).len() == s.len(),
        forall|i: int| 0 <= i < s.len() ==> #[trigger] arr_view(s)[i] == s[i].view(),
    decreases s.len(),
{
    if s.len() > 0 {
        lemma_arr_view_index(s.drop_last());
    }
}

/// `o` with the member `k` set to `v`: replaced where `k` already is, appended where not.
pub open spec fn obj_set(o: Seq<(Seq<char>, JsonV)>, k: Seq<char>, v: JsonV) -> Seq<(Seq<char>, JsonV)>
    decreases o.len(),
{
    if o.len() == 0 {
        seq![(k, v)]
    } else if o[0].0 == k {
        o.update(0, (k, v))
    } else {
        seq![o[0]] + obj_set(o.skip(1), k, v)
    }
}

/// The value of the first member of `ms` named `key`.
pub open spec fn first_member(ms: Seq<(Seq<char>, JsonV)>, key: Seq<char>) -> Option<JsonV>
    decreases ms.len(),
{
    if ms.len() == 0 {
        None
    } else if ms[0].0 == key {
        Some(ms[0].1)
    } else {
        first_member(ms.skip(1), key)
    }
}

/// The value of the member `key` of the object `j` (the first one of that name).
pub open spec fn member_of(j: JsonV, key: Seq<char>) -> Option<JsonV> {
    match j {
        JsonV::Obj(ms) => first_member(ms, key),
        _ => None,
    }
}

/// Looking a member up in two runs of members: the first run, then the second.
pub proof fn lemma_first_member_concat(a: Seq<(Seq<char>, JsonV)>, b: Seq<(Seq<char>, JsonV)>, key: Seq<char>)
    ensures
        first_member(a + b, key) == match first_member(a, key) {
            Some(v) => Some(v),
            None => first_member(b, key),
        },
    decreases a.len(),
{
    if a.len() == 0 {
        assert(a + b =~= b);
    } else {
        assert((a + b)[0] == a[0]);
        assert((a + b).skip(1) =~= a.skip(1) + b);
        lemma_first_member_concat(a.skip(1), b, key);
    }
}

/// An array of strings.
pub open spec fn str_array(s: Seq<Seq<char>>) -> JsonV {
    JsonV::Arr(Seq::new(s.len(), |i: int| JsonV::Str(s[i])))
}

/// The JSON string `s`.
pub fn jstr(s: &str) -> (r: Json)
    ensures
        r.view() == JsonV::Str(s@),
{
    let mut t = String::new();
    push_str(&mut t, s);
    proof {
        assert(t@ =~= s@);
    }
    Json::Str(t)
}

/// A JSON array of the strings of `v`.
pub fn jstr_array(v: &Vec<String>) -> (r: Json)
    ensures
        r.view() == str_array(Seq::new(v@.len(), |i: int| v@[i]@)),
{
    let mut out: Vec<Json> = Vec::new();
    let mut i: usize = 0;
    while i < v.len()
        invariant
            i <= v@.len(),
            arr_view(out@) == Seq::new(i as nat, |k: int| JsonV::Str(v@[k]@)),
        decreases v@.len() - i,
    {
        let x = jstr(v[i].as_str());
        proof {
            lemma_arr_view_push(out@, x);
        }
        out.push(x);
        proof {
            assert(arr_view(out@) =~= Seq::new((i + 1) as nat, |k: int| JsonV::Str(v@[k]@)));
        }
        i += 1;
    }
    proof {
        assert(Seq::new(i as nat, |k: int| JsonV::Str(v@[k]@)) =~= Seq::new(
            Seq::new(v@.len(), |k: int| v@[k]@).len(),
            |k: int| JsonV::Str(Seq::new(v@.len(), |k: int| v@[k]@)[k]),
        ));
    }
    Json::Arr(out)
}

/// Sets the member `k` of an object to `v`, in place where it already is.
pub fn obj_insert(m: &mut Vec<Member>, k: &str, v: Json)
    ensures
        obj_view(final(m)@) == obj_set(obj_view(old(m)@), k@, v.view()),
{
    let ghost o = obj_view(m@);
    proof {
        lemma_obj_view_index(m@);
        assert(o.skip(0) =~= o);
        assert(o.take(0) + obj_set(o.skip(0), k@, v.view()) =~= obj_set(o, k@, v.view()));
    }
    let mut i: usize = 0;
    while i < m.len()
        invariant
            i <= m@.len(),
            m@ == old(m)@,
            o == obj_view(m@),
            o.len() == m@.len(),
            forall|j: int| 0 <= j < m@.len() ==> #[trigger] o[j] == (m@[j].key@, m@[j].value.view()),
            obj_set(o, k@, v.view()) == o.take(i as int) + obj_set(o.skip(i as int), k@, v.view()),
        decreases m@.len() - i,
    {
        if str_eq(m[i].key.as_str(), k) {
            let mut key = String::new();
            push_str(&mut key, k);
            proof {
                assert(key@ =~= k@);
                assert(o.skip(i as int)[0].0 == k@);
            }
            m.set(i, Member { key, value: v });
            proof {
                lemma_obj_view_index(m@);
                assert(obj_view(m@) =~= o.take(i as int) + o.skip(i as int).update(0, (k@, v.view())));
                assert(obj_set(o.skip(i as int), k@, v.view()) == o.skip(i as int).update(
                    0,
                    (k@, v.view()),
                ));
            }
            return;
        }
        proof {
            assert(o.skip(i as int) =~= seq![o[i as int]] + o.skip(i + 1));
            assert(o.skip(i as int).skip(1) =~= o.skip(i + 1));
            assert(o.take(i + 1) =~= o.take(i as int).push(o[i as int]));
            assert(o.take(i as int) + (seq![o[i as int]] + obj_set(o.skip(i + 1), k@, v.view()))
                =~= o.take(i + 1) + obj_set(o.skip(i + 1), k@, v.view()));
        }
        i += 1;
    }
    let mut key = String::new();
    push_str(&mut key, k);
    proof {
        assert(key@ =~= k@);
        assert(o.skip(i as int) =~= Seq::<(Seq<char>, JsonV)>::empty());
        assert(o.take(i as int) =~= o);
        lemma_obj_view_push(m@, Member { key, value: v });
    }
    m.push(Member { key, value: v });
}

/// A copy of `j`.
pub fn json_copy(j: &Json) -> (r: Json)
    ensures
        r.view() == j.view(),
    decreases j,
{
    match j {
        Json::Null => Json::Null,
        Json::Bool(b) => Json::Bool(*b),
        Json::Int(n) => Json::Int(*n),
        Json::Num(s) => {
            let mut t = String::new();
            push_str(&mut t, s.as_str());
            Json::Num(t)
        },
        Json::Str(s) => jstr(s.as_str()),
        Json::Arr(v) => {
            let mut out: Vec<Json> = Vec::new();
            let mut i: usize = 0;
            while i < v.len()
                invariant
                    i <= v@.len(),
                    *j == Json::Arr(*v),
                    arr_view(out@) == arr_view(v@.take(i as int)),
                decreases v@.len() - i,
            {
                proof {
                    vstd::std_specs::vec::axiom_vec_index_decreases(*v, i as int);
                    assert(decreases_to!(*j => (*j)->Arr_0));
                    assert((*j)->Arr_0 == *v);
                }
                let x = json_copy(&v[i]);
                proof {
                    lemma_arr_view_push(out@, x);
                    assert(v@.take(i + 1).drop_last() =~= v@.take(i as int));
                }
                out.push(x);
                i += 1;
            }
            proof {
                assert(v@.take(i as int) =~= v@);
            }
            Json::Arr(out)
        },
        Json::Obj(m) => {
            let mut out: Vec<Member> = Vec::new();
            let mut i: usize = 0;
            while i < m.len()
                invariant
                    i <= m@.len(),
                    *j == Json::Obj(*m),
                    obj_view(out@) == obj_view(m@.take(i as int)),
                decreases m@.len() - i,
            {
                proof {
                    vstd::std_specs::vec::axiom_vec_index_decreases(*m, i as int);
                    assert(decreases_to!(*j => (*j)->Obj_0));
                    assert((*j)->Obj_0 == *m);
                    assert(decreases_to!(m[i as int] => m[i as int].value));
                }
                let x = json_copy(&m[i].value);
                let mut k = String::new();
                push_str(&mut k, m[i].key.as_str());
                let mem = Member { key: k, value: x };
                proof {
                    lemma_obj_view_push(out@, mem);
                    assert(m@.take(i + 1).drop_last() =~= m@.take(i as int));
                }
                out.push(mem);
                i += 1;
            }
            proof {
                assert(m@.take(i as int) =~= m@);
            }
            Json::Obj(out)
        },
    }
}

/// The values of `js`.
pub open spec fn views(js: Seq<Json>) -> Seq<JsonV> {
    Seq::new(js.len(), |i: int| js[i].view())
}

/// Copies of the values of `v`, appended to `out`.
pub fn append_copies(out: &mut Vec<Json>, v: &Vec<Json>)
    ensures
        arr_view(final(out)@) == arr_view(old(out)@) + views(v@),
{
    let mut i: usize = 0;
    let ghost start = arr_view(out@);
    while i < v.len()
        invariant
            i <= v@.len(),
            arr_view(out@) == start + views(v@).take(i as int),
            start == arr_view(old(out)@),
        decreases v@.len() - i,
    {
        let x = json_copy(&v[i]);
        proof {
            lemma_arr_view_push(out@, x);
            assert(views(v@).take(i + 1) =~= views(v@).take(i as int).push(v@[i as int].view()));
            assert(start + views(v@).take(i as int).push(x.view()) =~= (start + views(v@).take(
                i as int,
            )).push(x.view()));
        }
        out.push(x);
        i += 1;
    }
    proof {
        assert(views(v@).take(i as int) =~= views(v@));
    }
}

/// The member `key: value`.
pub fn member(key: &str, value: Json) -> (m: Member)
    ensures
        m.key@ == key@,
        m.value == value,
{
    Member { key: copy_text(key), value }
}

/// `{ key: value }`.
pub fn single(key: &str, value: Json) -> (r: Json)
    ensures
        r.view() == JsonV::Obj(seq![(key@, value.view())]),
{
    let mut m: Vec<Member> = Vec::new();
    let x = member(key, value);
    proof {
        lemma_obj_view_push(m@, x);
        assert(obj_view(m@) =~= Seq::<(Seq<char>, JsonV)>::empty());
    }
    m.push(x);
    proof {
        assert(obj_view(m@) =~= seq![(key@, value.view())]);
    }
    Json::Obj(m)
}

/// Appends the member `key: value`.
pub fn push_member(m: &mut Vec<Member>, key: &str, value: Json)
    ensures
        obj_view(final(m)@) == obj_view(old(m)@).push((key@, value.view())),
{
    let x = member(key, value);
    proof {
        lemma_obj_view_push(m@, x);
    }
    m.push(x);
}


fn copy_text(s: &str) -> (r: String)
    ensures
        r@ == s@,
{
    let mut r = String::new();
    push_str(&mut r, s);
    r
}

} // verus!
