//! The engine's record model: free-form JSON documents.
//!
//! Strings are UTF-8 byte strings, numbers are 64-bit signed integers,
//! and an object is an ordered list of key–value pairs.

use vstd::prelude::*;

verus! {

broadcast use vstd::std_specs::vec::group_vec_axioms;

/// An executable JSON document.
pub enum JsonValue {
    Null,
    Bool(bool),
    Int(i64),
    Str(Vec<u8>),
    Arr(Vec<JsonValue>),
    Obj(Vec<(Vec<u8>, JsonValue)>),
}

/// The mathematical shape of a JSON document, used by all contracts.
pub enum Json {
    Null,
    Bool(bool),
    Int(int),
    Str(Seq<u8>),
    Arr(Seq<Json>),
    Obj(Seq<(Seq<u8>, Json)>),
}

impl JsonValue {
    /// The document this value represents.
    pub open spec fn model(self) -> Json
        decreases self,
    {
        match self {
            JsonValue::Null => Json::Null,
            JsonValue::Bool(b) => Json::Bool(b),
            JsonValue::Int(i) => Json::Int(i as int),
            JsonValue::Str(s) => Json::Str(s@),
            JsonValue::Arr(a) => Json::Arr(arr_model(a@)),
            JsonValue::Obj(o) => Json::Obj(obj_model(o@)),
        }
    }
}

/// The documents that a sequence of values represents.
pub open spec fn arr_model(s: Seq<JsonValue>) -> Seq<Json>
    decreases s,
{
    if s.len() == 0 {
        Seq::empty()
    } else {
        seq![s[0].model()] + arr_model(s.subrange(1, s.len() as int))
    }
}

/// The key–document pairs that a sequence of entries represents.
pub open spec fn obj_model(s: Seq<(Vec<u8>, JsonValue)>) -> Seq<(Seq<u8>, Json)>
    decreases s,
{
    if s.len() == 0 {
        Seq::empty()
    } else {
        seq![(s[0].0@, s[0].1.model())] + obj_model(s.subrange(1, s.len() as int))
    }
}

/// `arr_model` maps the sequence pointwise.
pub broadcast proof fn lemma_arr_model(s: Seq<JsonValue>)
    ensures
        #[trigger] arr_model(s).len() == s.len(),
        forall|i: int| 0 <= i < s.len() ==> arr_model(s)[i] == s[i].model(),
    decreases s.len(),
{
    if s.len() > 0 {
        lemma_arr_model(s.subrange(1, s.len() as int));
    }
}

/// `obj_model` maps the sequence pointwise.
pub broadcast proof fn lemma_obj_model(s: Seq<(Vec<u8>, JsonValue)>)
    ensures
        #[trigger] obj_model(s).len() == s.len(),
        forall|i: int| 0 <= i < s.len() ==> obj_model(s)[i] == (s[i].0@, s[i].1.model()),
    decreases s.len(),
{
    if s.len() > 0 {
        lemma_obj_model(s.subrange(1, s.len() as int));
    }
}

/// Appending a value appends its document.
pub proof fn lemma_arr_model_snoc(s: Seq<JsonValue>, e: JsonValue)
    ensures
        arr_model(s.push(e)) == arr_model(s).push(e.model()),
{
    lemma_arr_model(s.push(e));
    lemma_arr_model(s);
    assert(arr_model(s.push(e)) =~= arr_model(s).push(e.model()));
}

/// Appending an entry appends its key and document.
pub proof fn lemma_obj_model_snoc(s: Seq<(Vec<u8>, JsonValue)>, e: (Vec<u8>, JsonValue))
    ensures
        obj_model(s.push(e)) == obj_model(s).push((e.0@, e.1.model())),
{
    lemma_obj_model(s.push(e));
    lemma_obj_model(s);
    assert(obj_model(s.push(e)) =~= obj_model(s).push((e.0@, e.1.model())));
}

/// What `model` gives on an array value, pointwise.
pub proof fn lemma_model_arr(v: JsonValue)
    requires
        v is Arr,
    ensures
        v.model() is Arr,
        v.model()->Arr_0.len() == v->Arr_0@.len(),
        forall|i: int| 0 <= i < v->Arr_0@.len() ==> v.model()->Arr_0[i] == v->Arr_0@[i].model(),
{
    lemma_arr_model(v->Arr_0@);
}

/// What `model` gives on an object value, pointwise.
pub proof fn lemma_model_obj(v: JsonValue)
    requires
        v is Obj,
    ensures
        v.model() is Obj,
        v.model()->Obj_0.len() == v->Obj_0@.len(),
        forall|i: int| 0 <= i < v->Obj_0@.len()
            ==> v.model()->Obj_0[i] == (v->Obj_0@[i].0@, v->Obj_0@[i].1.model()),
{
    lemma_obj_model(v->Obj_0@);
}

/// A copy with the same shape.
pub fn json_clone(v: &JsonValue) -> (r: JsonValue)
    ensures
        r.model() == v.model(),
    decreases *v,
{
    match v {
        JsonValue::Null => JsonValue::Null,
        JsonValue::Bool(b) => JsonValue::Bool(*b),
        JsonValue::Int(i) => JsonValue::Int(*i),
        JsonValue::Str(s) => JsonValue::Str(copy_bytes(s)),
        JsonValue::Arr(x) => {
            proof {
                lemma_model_arr(*v);
            }
            let mut elems: Vec<JsonValue> = Vec::new();
            let n = x.len();
            for i in 0..n
                invariant
                    n == x@.len(),
                    v is Arr && v->Arr_0 == *x,
                    elems@.len() == i,
                    forall|j: int| 0 <= j < i ==> elems@[j].model() == x@[j].model(),
                decreases n - i,
            {
                elems.push(json_clone(&x[i]));
            }
            let r = JsonValue::Arr(elems);
            proof {
                lemma_model_arr(r);
                assert(r.model()->Arr_0 =~= v.model()->Arr_0);
            }
            r
        },
        JsonValue::Obj(x) => {
            proof {
                lemma_model_obj(*v);
            }
            let mut entries: Vec<(Vec<u8>, JsonValue)> = Vec::new();
            let n = x.len();
            for i in 0..n
                invariant
                    n == x@.len(),
                    v is Obj && v->Obj_0 == *x,
                    entries@.len() == i,
                    forall|j: int| 0 <= j < i
                        ==> entries@[j].0@ == x@[j].0@ && entries@[j].1.model() == x@[j].1.model(),
                decreases n - i,
            {
                let key = copy_bytes(&x[i].0);
                let val = json_clone(&x[i].1);
                entries.push((key, val));
            }
            let r = JsonValue::Obj(entries);
            proof {
                lemma_model_obj(r);
                assert(r.model()->Obj_0 =~= v.model()->Obj_0);
            }
            r
        },
    }
}

/// A copy of a byte string.
pub fn copy_bytes(v: &Vec<u8>) -> (r: Vec<u8>)
    ensures
        r@ == v@,
{
    let mut out: Vec<u8> = Vec::new();
    let n = v.len();
    for i in 0..n
        invariant
            n == v@.len(),
            out@ == v@.subrange(0, i as int),
        decreases n - i,
    {
        out.push(v[i]);
        proof {
            assert(out@ =~= v@.subrange(0, i + 1));
        }
    }
    proof {
        assert(v@.subrange(0, v@.len() as int) =~= v@);
    }
    out
}

/// The value under `name` in a document, if the document is an object
/// holding that key; the first occurrence counts.
pub open spec fn json_field(j: Json, name: Seq<u8>) -> Option<Json>
    decreases j,
{
    match j {
        Json::Obj(entries) => field_in(entries, name),
        _ => Option::None,
    }
}

/// The value under `name` among entries, front first.
pub open spec fn field_in(entries: Seq<(Seq<u8>, Json)>, name: Seq<u8>) -> Option<Json>
    decreases entries,
{
    if entries.len() == 0 {
        Option::None
    } else if entries[0].0 == name {
        Option::Some(entries[0].1)
    } else {
        field_in(entries.subrange(1, entries.len() as int), name)
    }
}

/// Looks a field up in an object document.
pub fn obj_get<'a>(v: &'a JsonValue, name: &Vec<u8>) -> (r: Option<&'a JsonValue>)
    ensures
        match r {
            Option::Some(found) => json_field(v.model(), name@) == Option::Some(found.model()),
            Option::None => json_field(v.model(), name@) is None,
        },
{
    match v {
        JsonValue::Obj(entries) => {
            proof {
                lemma_model_obj(*v);
            }
            let ghost m = v.model()->Obj_0;
            proof {
                assert(m.subrange(0, m.len() as int) =~= m);
            }
            let n = entries.len();
            for i in 0..n
                invariant
                    n == entries@.len(),
                    v is Obj && v->Obj_0 == *entries,
                    m == v.model()->Obj_0,
                    m.len() == n,
                    forall|j: int| 0 <= j < n
                        ==> m[j] == (entries@[j].0@, entries@[j].1.model()),
                    forall|j: int| 0 <= j < i ==> m[j].0 != name@,
                    field_in(m, name@) == field_in(m.subrange(i as int, m.len() as int), name@),
                decreases n - i,
            {
                if bytes_eq(&entries[i].0, name) {
                    proof {
                        let tail = m.subrange(i as int, m.len() as int);
                        assert(tail[0] == m[i as int]);
                        assert(field_in(tail, name@) == Option::Some(m[i as int].1));
                    }
                    return Some(&entries[i].1);
                }
                proof {
                    let tail = m.subrange(i as int, m.len() as int);
                    let rest = m.subrange(i + 1, m.len() as int);
                    assert(tail[0] == m[i as int]);
                    assert(tail.subrange(1, tail.len() as int) =~= rest);
                    assert(field_in(tail, name@) == field_in(rest, name@));
                }
            }
            proof {
                assert(m.subrange(m.len() as int, m.len() as int) =~= Seq::<(Seq<u8>, Json)>::empty());
            }
            None
        },
        _ => None,
    }
}

/// Byte-string equality.
pub fn bytes_eq(a: &Vec<u8>, b: &Vec<u8>) -> (r: bool)
    ensures
        r == (a@ == b@),
{
    if a.len() != b.len() {
        assert(a@ != b@);
        return false;
    }
    let n = a.len();
    for i in 0..n
        invariant
            n == a@.len(),
            n == b@.len(),
            forall|j: int| 0 <= j < i ==> a@[j] == b@[j],
        decreases n - i,
    {
        if a[i] != b[i] {
            return false;
        }
    }
    assert(a@ =~= b@);
    true
}

/// Structural equality of two documents.
pub fn json_eq(a: &JsonValue, b: &JsonValue) -> (r: bool)
    ensures
        r == (a.model() == b.model()),
    decreases *a,
{
    broadcast use lemma_arr_model, lemma_obj_model;

    match (a, b) {
        (JsonValue::Null, JsonValue::Null) => true,
        (JsonValue::Bool(x), JsonValue::Bool(y)) => *x == *y,
        (JsonValue::Int(x), JsonValue::Int(y)) => *x == *y,
        (JsonValue::Str(x), JsonValue::Str(y)) => bytes_eq(x, y),
        (JsonValue::Arr(x), JsonValue::Arr(y)) => {
            proof {
                lemma_model_arr(*a);
                lemma_model_arr(*b);
            }
            if x.len() != y.len() {
                return false;
            }
            let n = x.len();
            for i in 0..n
                invariant
                    n == x@.len(),
                    n == y@.len(),
                    a is Arr && a->Arr_0 == *x,
                    b is Arr && b->Arr_0 == *y,
                    forall|j: int| 0 <= j < i ==> x@[j].model() == y@[j].model(),
                decreases n - i,
            {
                if !json_eq(&x[i], &y[i]) {
                    proof {
                        lemma_model_arr(*a);
                        lemma_model_arr(*b);
                        assert(a.model()->Arr_0[i as int] != b.model()->Arr_0[i as int]);
                    }
                    return false;
                }
            }
            proof {
                lemma_model_arr(*a);
                lemma_model_arr(*b);
                assert(a.model()->Arr_0 =~= b.model()->Arr_0);
            }
            true
        },
        (JsonValue::Obj(x), JsonValue::Obj(y)) => {
            proof {
                lemma_model_obj(*a);
                lemma_model_obj(*b);
            }
            if x.len() != y.len() {
                return false;
            }
            let n = x.len();
            for i in 0..n
                invariant
                    n == x@.len(),
                    n == y@.len(),
                    a is Obj && a->Obj_0 == *x,
                    b is Obj && b->Obj_0 == *y,
                    forall|j: int| 0 <= j < i ==> x@[j].0@ == y@[j].0@ && x@[j].1.model() == y@[j].1.model(),
                decreases n - i,
            {
                if !bytes_eq(&x[i].0, &y[i].0) {
                    proof {
                        lemma_model_obj(*a);
                        lemma_model_obj(*b);
                        assert(a.model()->Obj_0[i as int] != b.model()->Obj_0[i as int]);
                    }
                    return false;
                }
                if !json_eq(&x[i].1, &y[i].1) {
                    proof {
                        lemma_model_obj(*a);
                        lemma_model_obj(*b);
                        assert(a.model()->Obj_0[i as int] != b.model()->Obj_0[i as int]);
                    }
                    return false;
                }
            }
            proof {
                lemma_model_obj(*a);
                lemma_model_obj(*b);
                assert(a.model()->Obj_0 =~= b.model()->Obj_0);
            }
            true
        },
        _ => {
            false
        },
    }
}

} // verus!
