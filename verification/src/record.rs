//! Document-identity policy: the store owns `doc_id`.
//!
//! Before a record is stored, any `doc_id` the caller put at top level or
//! inside its `data` object is dropped, and the store's own identifier is
//! appended at top level. Values that are not objects are stored as they
//! came.

use vstd::prelude::*;

use crate::json::{
    bytes_eq, field_in, json_clone, json_field, lemma_model_obj, obj_get, obj_model, Json,
    JsonValue,
};

verus! {

broadcast use vstd::std_specs::vec::group_vec_axioms;

/// The reserved key `doc_id`.
pub open spec fn doc_id_key() -> Seq<u8> {
    seq![100u8, 111u8, 99u8, 95u8, 105u8, 100u8]
}

/// The key `data`.
pub open spec fn data_key() -> Seq<u8> {
    seq![100u8, 97u8, 116u8, 97u8]
}

/// The key `doc_id` as a byte string.
pub fn doc_id_key_bytes() -> (r: Vec<u8>)
    ensures
        r@ == doc_id_key(),
{
    let mut k: Vec<u8> = Vec::new();
    k.push(100);
    k.push(111);
    k.push(99);
    k.push(95);
    k.push(105);
    k.push(100);
    proof {
        assert(k@ =~= doc_id_key());
    }
    k
}

/// The key `data` as a byte string.
pub fn data_key_bytes() -> (r: Vec<u8>)
    ensures
        r@ == data_key(),
{
    let mut k: Vec<u8> = Vec::new();
    k.push(100);
    k.push(97);
    k.push(116);
    k.push(97);
    proof {
        assert(k@ =~= data_key());
    }
    k
}

/// The entries with `name` taken out.
pub open spec fn drop_key(entries: Seq<(Seq<u8>, Json)>, name: Seq<u8>) -> Seq<(Seq<u8>, Json)>
    decreases entries,
{
    if entries.len() == 0 {
        Seq::empty()
    } else {
        let rest = drop_key(entries.subrange(1, entries.len() as int), name);
        if entries[0].0 == name {
            rest
        } else {
            seq![entries[0]] + rest
        }
    }
}

/// Top-level entries as storing rewrites them: `doc_id` dropped, and a
/// `data` object loses its own `doc_id`.
pub open spec fn strip_entries(entries: Seq<(Seq<u8>, Json)>) -> Seq<(Seq<u8>, Json)>
    decreases entries,
{
    if entries.len() == 0 {
        Seq::empty()
    } else {
        let e = entries[0];
        let rest = strip_entries(entries.subrange(1, entries.len() as int));
        if e.0 == doc_id_key() {
            rest
        } else if e.0 == data_key() && e.1 is Obj {
            seq![(e.0, Json::Obj(drop_key(e.1->Obj_0, doc_id_key())))] + rest
        } else {
            seq![e] + rest
        }
    }
}

/// The record as the store keeps it under identifier `id`.
pub open spec fn prepared(v: Json, id: Seq<u8>) -> Json {
    match v {
        Json::Obj(entries) => Json::Obj(
            strip_entries(entries).push((doc_id_key(), Json::Str(id))),
        ),
        _ => v,
    }
}

/// Whether a stored record carries `id` as its identifier.
pub open spec fn has_doc_id(rec: Json, id: Seq<u8>) -> bool {
    json_field(rec, doc_id_key()) == Option::Some(Json::Str(id))
}

/// A prepared record carries exactly the identifier it was given.
pub broadcast proof fn lemma_prepared_doc_id(v: Json, id: Seq<u8>)
    requires
        v is Obj,
    ensures
        has_doc_id(#[trigger] prepared(v, id), id),
        json_field(prepared(v, id), doc_id_key()) == Option::Some(Json::Str(id)),
{
    let entries = strip_entries(v->Obj_0).push((doc_id_key(), Json::Str(id)));
    lemma_strip_no_doc_id(v->Obj_0);
    lemma_field_in_absent_push(strip_entries(v->Obj_0), doc_id_key(), Json::Str(id));
}

/// `strip_entries` leaves no `doc_id` behind.
pub proof fn lemma_strip_no_doc_id(entries: Seq<(Seq<u8>, Json)>)
    ensures
        forall|i: int| 0 <= i < strip_entries(entries).len()
            ==> (#[trigger] strip_entries(entries)[i].0) != doc_id_key(),
    decreases entries,
{
    if entries.len() > 0 {
        let e = entries[0];
        let rest = strip_entries(entries.subrange(1, entries.len() as int));
        lemma_strip_no_doc_id(entries.subrange(1, entries.len() as int));
        if e.0 == doc_id_key() {
        } else if e.0 == data_key() && e.1 is Obj {
            let head = (e.0, Json::Obj(drop_key(e.1->Obj_0, doc_id_key())));
            assert(strip_entries(entries) == seq![head] + rest);
            assert(data_key() != doc_id_key()) by {
                assert(data_key().len() != doc_id_key().len());
            }
            assert forall|i: int| 0 <= i < strip_entries(entries).len()
                implies (#[trigger] strip_entries(entries)[i].0) != doc_id_key() by {
                if i == 0 {
                    assert(strip_entries(entries)[0] == head);
                } else {
                    assert(strip_entries(entries)[i] == rest[i - 1]);
                }
            }
        } else {
            assert(strip_entries(entries) == seq![e] + rest);
            assert forall|i: int| 0 <= i < strip_entries(entries).len()
                implies (#[trigger] strip_entries(entries)[i].0) != doc_id_key() by {
                if i == 0 {
                    assert(strip_entries(entries)[0] == e);
                } else {
                    assert(strip_entries(entries)[i] == rest[i - 1]);
                }
            }
        }
    }
}

/// Looking a key up after pushing it at the end of entries that do not
/// hold it finds exactly the pushed value.
pub proof fn lemma_field_in_absent_push(entries: Seq<(Seq<u8>, Json)>, name: Seq<u8>, value: Json)
    requires
        forall|i: int| 0 <= i < entries.len() ==> (#[trigger] entries[i].0) != name,
    ensures
        field_in(entries.push((name, value)), name) == Option::Some(value),
    decreases entries,
{
    let pushed = entries.push((name, value));
    if entries.len() == 0 {
        assert(pushed[0] == (name, value));
    } else {
        assert(pushed[0] == entries[0]);
        assert(pushed.subrange(1, pushed.len() as int)
            =~= entries.subrange(1, entries.len() as int).push((name, value)));
        lemma_field_in_absent_push(entries.subrange(1, entries.len() as int), name, value);
    }
}

/// Looking a key up after a push: the earlier entries win, then the
/// pushed one.
pub proof fn lemma_field_in_push(entries: Seq<(Seq<u8>, Json)>, e: (Seq<u8>, Json), name: Seq<u8>)
    ensures
        field_in(entries.push(e), name) == if field_in(entries, name) is Some {
            field_in(entries, name)
        } else if e.0 == name {
            Option::Some(e.1)
        } else {
            Option::None
        },
    decreases entries,
{
    let pushed = entries.push(e);
    if entries.len() == 0 {
        assert(pushed[0] == e);
        assert(pushed.subrange(1, pushed.len() as int) =~= entries);
    } else {
        assert(pushed[0] == entries[0]);
        assert(pushed.subrange(1, pushed.len() as int)
            =~= entries.subrange(1, entries.len() as int).push(e));
        lemma_field_in_push(entries.subrange(1, entries.len() as int), e, name);
    }
}

/// What the stored form holds under `data`: the caller's `data` object
/// with its own `doc_id` dropped, or the caller's `data` value as it
/// came when it is no object.
pub proof fn lemma_strip_data_lookup(entries: Seq<(Seq<u8>, Json)>)
    ensures
        field_in(strip_entries(entries), data_key()) == match field_in(entries, data_key()) {
            Option::Some(d) => Option::Some(
                if d is Obj {
                    Json::Obj(drop_key(d->Obj_0, doc_id_key()))
                } else {
                    d
                },
            ),
            Option::None => Option::None::<Json>,
        },
    decreases entries,
{
    if entries.len() > 0 {
        let e = entries[0];
        let tail = entries.subrange(1, entries.len() as int);
        let rest = strip_entries(tail);
        lemma_strip_data_lookup(tail);
        assert(data_key() != doc_id_key()) by {
            assert(data_key().len() != doc_id_key().len());
        }
        if e.0 == doc_id_key() {
        } else if e.0 == data_key() && e.1 is Obj {
            let head = (e.0, Json::Obj(drop_key(e.1->Obj_0, doc_id_key())));
            let stripped = seq![head] + rest;
            assert(strip_entries(entries) == stripped);
            assert(stripped[0] == head);
            assert(field_in(stripped, data_key()) == Option::Some(head.1));
        } else {
            let stripped = seq![e] + rest;
            assert(strip_entries(entries) == stripped);
            assert(stripped[0] == e);
            if e.0 == data_key() {
                assert(field_in(stripped, data_key()) == Option::Some(e.1));
            } else {
                assert(stripped.subrange(1, stripped.len() as int) =~= rest);
            }
        }
    }
}

/// After a record is stored under a fresh identifier and read back as
/// the latest record, what comes back is the stored form itself: it
/// carries exactly the fresh identifier, and its `data` is the caller's
/// `data` with any `doc_id` of its own dropped.
pub proof fn lemma_persist_then_latest(recs: Seq<Json>, v: Json, id: Seq<u8>)
    requires
        v is Obj,
    ensures
        recs.push(prepared(v, id)).last() == prepared(v, id),
        has_doc_id(prepared(v, id), id),
        json_field(prepared(v, id), data_key()) == match json_field(v, data_key()) {
            Option::Some(d) => Option::Some(
                if d is Obj {
                    Json::Obj(drop_key(d->Obj_0, doc_id_key()))
                } else {
                    d
                },
            ),
            Option::None => Option::None::<Json>,
        },
{
    lemma_prepared_doc_id(v, id);
    lemma_strip_data_lookup(v->Obj_0);
    lemma_field_in_push(strip_entries(v->Obj_0), (doc_id_key(), Json::Str(id)), data_key());
    assert(data_key() != doc_id_key()) by {
        assert(data_key().len() != doc_id_key().len());
    }
}

/// Drops every entry named `name` from an object's entries.
pub(crate) fn remove_entries(entries: &Vec<(Vec<u8>, JsonValue)>, name: &Vec<u8>) -> (r: Vec<(Vec<u8>, JsonValue)>)
    ensures
        obj_model(r@) == drop_key(obj_model(entries@), name@),
{
    let mut out: Vec<(Vec<u8>, JsonValue)> = Vec::new();
    let n = entries.len();
    proof {
        crate::json::lemma_obj_model(entries@);
        assert(obj_model(entries@.subrange(0, 0)) =~= Seq::<(Seq<u8>, Json)>::empty());
        lemma_drop_key_empty(name@);
    }
    for i in 0..n
        invariant
            n == entries@.len(),
            obj_model(out@) == drop_key(obj_model(entries@.subrange(0, i as int)), name@),
        decreases n - i,
    {
        let ghost e_model = (entries@[i as int].0@, entries@[i as int].1.model());
        proof {
            assert(entries@.subrange(0, i + 1)
                =~= entries@.subrange(0, i as int).push(entries@[i as int]));
            crate::json::lemma_obj_model_snoc(entries@.subrange(0, i as int), entries@[i as int]);
            lemma_drop_key_snoc(obj_model(entries@.subrange(0, i as int)), e_model, name@);
        }
        if !bytes_eq(&entries[i].0, name) {
            let pair = (crate::json::copy_bytes(&entries[i].0), json_clone(&entries[i].1));
            proof {
                crate::json::lemma_obj_model_snoc(out@, pair);
            }
            out.push(pair);
        }
    }
    proof {
        assert(entries@.subrange(0, entries@.len() as int) =~= entries@);
    }
    out
}

/// `drop_key` of nothing is nothing.
proof fn lemma_drop_key_empty(name: Seq<u8>)
    ensures
        drop_key(Seq::empty(), name) == Seq::<(Seq<u8>, Json)>::empty(),
{
}

/// Appending one entry extends `drop_key` by that entry or not at all.
proof fn lemma_drop_key_snoc(entries: Seq<(Seq<u8>, Json)>, e: (Seq<u8>, Json), name: Seq<u8>)
    ensures
        drop_key(entries.push(e), name) == if e.0 == name {
            drop_key(entries, name)
        } else {
            drop_key(entries, name).push(e)
        },
    decreases entries,
{
    let pushed = entries.push(e);
    if entries.len() == 0 {
        assert(pushed[0] == e);
        assert(pushed.subrange(1, pushed.len() as int) =~= entries);
        if e.0 == name {
        } else {
            assert(drop_key(pushed, name) =~= drop_key(entries, name).push(e));
        }
    } else {
        assert(pushed[0] == entries[0]);
        assert(pushed.subrange(1, pushed.len() as int)
            =~= entries.subrange(1, entries.len() as int).push(e));
        lemma_drop_key_snoc(entries.subrange(1, entries.len() as int), e, name);
        if e.0 == name {
        } else {
            assert(drop_key(pushed, name) =~= drop_key(entries, name).push(e));
        }
    }
}

/// Appending one entry extends `strip_entries` pointwise.
proof fn lemma_strip_snoc(entries: Seq<(Seq<u8>, Json)>, e: (Seq<u8>, Json))
    ensures
        strip_entries(entries.push(e)) == if e.0 == doc_id_key() {
            strip_entries(entries)
        } else if e.0 == data_key() && e.1 is Obj {
            strip_entries(entries).push((e.0, Json::Obj(drop_key(e.1->Obj_0, doc_id_key()))))
        } else {
            strip_entries(entries).push(e)
        },
    decreases entries,
{
    let pushed = entries.push(e);
    if entries.len() == 0 {
        assert(pushed[0] == e);
        assert(pushed.subrange(1, pushed.len() as int) =~= entries);
        if e.0 == doc_id_key() {
        } else if e.0 == data_key() && e.1 is Obj {
            assert(strip_entries(pushed)
                =~= strip_entries(entries).push((e.0, Json::Obj(drop_key(e.1->Obj_0, doc_id_key())))));
        } else {
            assert(strip_entries(pushed) =~= strip_entries(entries).push(e));
        }
    } else {
        assert(pushed[0] == entries[0]);
        assert(pushed.subrange(1, pushed.len() as int)
            =~= entries.subrange(1, entries.len() as int).push(e));
        lemma_strip_snoc(entries.subrange(1, entries.len() as int), e);
        if e.0 == doc_id_key() {
        } else if e.0 == data_key() && e.1 is Obj {
            assert(strip_entries(pushed)
                =~= strip_entries(entries).push((e.0, Json::Obj(drop_key(e.1->Obj_0, doc_id_key())))));
        } else {
            assert(strip_entries(pushed) =~= strip_entries(entries).push(e));
        }
    }
}

/// The record as the store will keep it under identifier `id`: the
/// caller's `doc_id` fields give way to the store's own.
pub fn prepare_record(record: &JsonValue, id: &Vec<u8>) -> (r: JsonValue)
    ensures
        r.model() == prepared(record.model(), id@),
{
    match record {
        JsonValue::Obj(entries) => {
            proof {
                lemma_model_obj(*record);
            }
            let doc_key = doc_id_key_bytes();
            let data_k = data_key_bytes();
            let mut out: Vec<(Vec<u8>, JsonValue)> = Vec::new();
            let n = entries.len();
            proof {
                assert(obj_model(entries@.subrange(0, 0)) =~= Seq::<(Seq<u8>, Json)>::empty());
            }
            for i in 0..n
                invariant
                    n == entries@.len(),
                    doc_key@ == doc_id_key(),
                    data_k@ == data_key(),
                    obj_model(out@) == strip_entries(obj_model(entries@.subrange(0, i as int))),
                decreases n - i,
            {
                let ghost e_model = (entries@[i as int].0@, entries@[i as int].1.model());
                proof {
                    assert(entries@.subrange(0, i + 1)
                        =~= entries@.subrange(0, i as int).push(entries@[i as int]));
                    crate::json::lemma_obj_model_snoc(
                        entries@.subrange(0, i as int), entries@[i as int]);
                    lemma_strip_snoc(obj_model(entries@.subrange(0, i as int)), e_model);
                }
                let e_key = &entries[i].0;
                let e_val = &entries[i].1;
                if bytes_eq(e_key, &doc_key) {
                    // The caller's identifier is dropped.
                } else if bytes_eq(e_key, &data_k) && matches!(e_val, JsonValue::Obj(_)) {
                    proof {
                        crate::json::lemma_model_obj(*e_val);
                    }
                    let inner = match e_val {
                        JsonValue::Obj(inner_entries) => remove_entries(inner_entries, &doc_key),
                        _ => Vec::new(),
                    };
                    let pair = (crate::json::copy_bytes(e_key), JsonValue::Obj(inner));
                    proof {
                        crate::json::lemma_obj_model_snoc(out@, pair);
                        crate::json::lemma_model_obj(pair.1);
                        crate::json::lemma_obj_model(pair.1->Obj_0@);
                    }
                    out.push(pair);
                } else {
                    let pair = (crate::json::copy_bytes(e_key), json_clone(e_val));
                    proof {
                        crate::json::lemma_obj_model_snoc(out@, pair);
                    }
                    out.push(pair);
                }
            }
            let id_pair = (doc_id_key_bytes(), JsonValue::Str(crate::json::copy_bytes(id)));
            proof {
                crate::json::lemma_obj_model_snoc(out@, id_pair);
                assert(entries@.subrange(0, entries@.len() as int) =~= entries@);
            }
            out.push(id_pair);
            let r = JsonValue::Obj(out);
            proof {
                lemma_model_obj(r);
            }
            r
        },
        _ => json_clone(record),
    }
}

/// What a write announces to subscribers: the record's `data` object if
/// it has one, else the record itself.
pub fn event_payload(record: &JsonValue) -> (r: JsonValue)
    ensures
        r.model() == match json_field(record.model(), data_key()) {
            Option::Some(inner) => inner,
            Option::None => record.model(),
        },
{
    let data_k = data_key_bytes();
    match obj_get(record, &data_k) {
        Some(inner) => json_clone(inner),
        None => json_clone(record),
    }
}

} // verus!
