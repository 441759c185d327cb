//! Field predicates over records: the lookup rule and the comparison
//! operators of the advanced search.
//!
//! A criterion names a field. The field is read at top level first; when
//! the record's top level lacks it, inside the record's `data` object.
//! A record with neither, or one that is no object at all, matches no
//! criterion.

use vstd::prelude::*;

use crate::json::{field_in, json_eq, json_field, lemma_model_arr, Json, JsonValue};
use crate::record::data_key;

verus! {

broadcast use vstd::std_specs::vec::group_vec_axioms;

/// The comparison operators the advanced search offers.
#[derive(Clone, Copy, Debug, PartialEq, Eq, Structural)]
pub enum ComparisonOperator {
    Eq,
    Ne,
    Gt,
    Ge,
    Lt,
    Le,
    Contains,
    StartsWith,
    EndsWith,
}

/// Strict lexicographic order on byte strings: a proper prefix comes
/// first, otherwise the first differing byte decides.
pub open spec fn lex_lt(a: Seq<u8>, b: Seq<u8>) -> bool
    decreases a,
{
    if b.len() == 0 {
        false
    } else if a.len() == 0 {
        true
    } else if a[0] < b[0] {
        true
    } else if a[0] > b[0] {
        false
    } else {
        lex_lt(a.subrange(1, a.len() as int), b.subrange(1, b.len() as int))
    }
}

/// Whether `needle` starts `hay`.
pub open spec fn is_prefix(hay: Seq<u8>, needle: Seq<u8>) -> bool {
    needle.len() <= hay.len() && hay.subrange(0, needle.len() as int) == needle
}

/// Whether `needle` ends `hay`.
pub open spec fn is_suffix(hay: Seq<u8>, needle: Seq<u8>) -> bool {
    needle.len() <= hay.len()
        && hay.subrange(hay.len() - needle.len(), hay.len() as int) == needle
}

/// Whether `needle` occurs anywhere in `hay`.
pub open spec fn has_substring(hay: Seq<u8>, needle: Seq<u8>) -> bool {
    exists|k: int|
        0 <= k && k + needle.len() <= hay.len()
            && #[trigger] hay.subrange(k, k + needle.len()) == needle
}

/// What one operator says of an actual and an expected document.
/// Order operators compare integers as integers and strings
/// lexicographically, and hold of nothing else; `Contains` is substring
/// on strings and membership on arrays.
pub open spec fn compare_model(actual: Json, expected: Json, op: ComparisonOperator) -> bool {
    match op {
        ComparisonOperator::Eq => actual == expected,
        ComparisonOperator::Ne => actual != expected,
        ComparisonOperator::Gt => match (actual, expected) {
            (Json::Int(a), Json::Int(b)) => a > b,
            (Json::Str(a), Json::Str(b)) => lex_lt(b, a),
            _ => false,
        },
        ComparisonOperator::Ge => match (actual, expected) {
            (Json::Int(a), Json::Int(b)) => a >= b,
            (Json::Str(a), Json::Str(b)) => !lex_lt(a, b),
            _ => false,
        },
        ComparisonOperator::Lt => match (actual, expected) {
            (Json::Int(a), Json::Int(b)) => a < b,
            (Json::Str(a), Json::Str(b)) => lex_lt(a, b),
            _ => false,
        },
        ComparisonOperator::Le => match (actual, expected) {
            (Json::Int(a), Json::Int(b)) => a <= b,
            (Json::Str(a), Json::Str(b)) => !lex_lt(b, a),
            _ => false,
        },
        ComparisonOperator::Contains => match actual {
            Json::Str(a) => expected is Str && has_substring(a, expected->Str_0),
            Json::Arr(elems) => exists|i: int| 0 <= i < elems.len() && #[trigger] elems[i] == expected,
            _ => false,
        },
        ComparisonOperator::StartsWith => match (actual, expected) {
            (Json::Str(a), Json::Str(b)) => is_prefix(a, b),
            _ => false,
        },
        ComparisonOperator::EndsWith => match (actual, expected) {
            (Json::Str(a), Json::Str(b)) => is_suffix(a, b),
            _ => false,
        },
    }
}

/// The lookup rule: the named field at top level when present, else the
/// field inside a `data` object; the operator then decides.
pub open spec fn criterion_holds(rec: Json, field: Seq<u8>, op: ComparisonOperator, expected: Json) -> bool {
    match json_field(rec, field) {
        Option::Some(actual) => compare_model(actual, expected, op),
        Option::None => match json_field(rec, data_key()) {
            Option::Some(d) => d is Obj && match field_in(d->Obj_0, field) {
                Option::Some(actual) => compare_model(actual, expected, op),
                Option::None => false,
            },
            Option::None => false,
        },
    }
}

/// Whether a record satisfies every pair of an equality criteria list.
pub open spec fn matches_pairs(rec: Json, criteria: Seq<(Seq<u8>, Json)>) -> bool {
    rec is Obj && forall|k: int| 0 <= k < criteria.len()
        ==> criterion_holds(rec, (#[trigger] criteria[k]).0, ComparisonOperator::Eq, criteria[k].1)
}

/// Whether a record satisfies every triple of an advanced criteria list.
pub open spec fn matches_triples(rec: Json, criteria: Seq<(Seq<u8>, ComparisonOperator, Json)>) -> bool {
    rec is Obj && forall|k: int| 0 <= k < criteria.len()
        ==> criterion_holds(rec, (#[trigger] criteria[k]).0, criteria[k].1, criteria[k].2)
}

/// Strict lexicographic order, decided.
pub fn lex_less(a: &Vec<u8>, b: &Vec<u8>) -> (r: bool)
    ensures
        r == lex_lt(a@, b@),
{
    let an = a.len();
    let bn = b.len();
    let n = if an < bn { an } else { bn };
    proof {
        assert(a@.subrange(0, a@.len() as int) =~= a@);
        assert(b@.subrange(0, b@.len() as int) =~= b@);
    }
    for i in 0..n
        invariant
            an == a@.len(),
            bn == b@.len(),
            n == if an < bn { an } else { bn },
            lex_lt(a@, b@) == lex_lt(a@.subrange(i as int, an as int), b@.subrange(i as int, bn as int)),
            forall|j: int| 0 <= j < i ==> a@[j] == b@[j],
        decreases n - i,
    {
        if a[i] < b[i] {
            return true;
        }
        if a[i] > b[i] {
            return false;
        }
        proof {
            let at = a@.subrange(i as int, an as int);
            let bt = b@.subrange(i as int, bn as int);
            assert(at[0] == a@[i as int]);
            assert(bt[0] == b@[i as int]);
            assert(at.subrange(1, at.len() as int) =~= a@.subrange(i + 1, an as int));
            assert(bt.subrange(1, bt.len() as int) =~= b@.subrange(i + 1, bn as int));
        }
    }
    proof {
        let at = a@.subrange(n as int, an as int);
        let bt = b@.subrange(n as int, bn as int);
        if an < bn {
            assert(at.len() == 0 && bt.len() > 0);
        } else {
            assert(bt.len() == 0);
        }
    }
    an < bn
}

/// Whether `needle` starts `hay`, decided.
pub fn starts_with(hay: &Vec<u8>, needle: &Vec<u8>) -> (r: bool)
    ensures
        r == is_prefix(hay@, needle@),
{
    let m = needle.len();
    if m > hay.len() {
        return false;
    }
    for i in 0..m
        invariant
            m == needle@.len(),
            m <= hay@.len(),
            forall|j: int| 0 <= j < i ==> hay@[j] == needle@[j],
        decreases m - i,
    {
        if hay[i] != needle[i] {
            assert(hay@.subrange(0, m as int)[i as int] != needle@[i as int]);
            return false;
        }
    }
    assert(hay@.subrange(0, m as int) =~= needle@);
    true
}

/// Whether `needle` ends `hay`, decided.
pub fn ends_with(hay: &Vec<u8>, needle: &Vec<u8>) -> (r: bool)
    ensures
        r == is_suffix(hay@, needle@),
{
    let m = needle.len();
    let n = hay.len();
    if m > n {
        return false;
    }
    let off = n - m;
    for i in 0..m
        invariant
            m == needle@.len(),
            n == hay@.len(),
            m <= n,
            off == n - m,
            forall|j: int| 0 <= j < i ==> hay@[off + j] == needle@[j],
        decreases m - i,
    {
        if hay[off + i] != needle[i] {
            assert(hay@.subrange(off as int, n as int)[i as int] != needle@[i as int]);
            return false;
        }
    }
    assert(hay@.subrange(off as int, n as int) =~= needle@);
    true
}

/// Whether `needle` matches `hay` at offset `k`.
fn matches_at(hay: &Vec<u8>, needle: &Vec<u8>, k: usize) -> (r: bool)
    requires
        k + needle@.len() <= hay@.len(),
    ensures
        r == (hay@.subrange(k as int, k + needle@.len()) == needle@),
{
    let m = needle.len();
    let hn = hay.len();
    for i in 0..m
        invariant
            m == needle@.len(),
            hn == hay@.len(),
            k + m <= hn,
            forall|j: int| 0 <= j < i ==> hay@[k + j] == needle@[j],
        decreases m - i,
    {
        if hay[k + i] != needle[i] {
            assert(hay@.subrange(k as int, k + needle@.len())[i as int] != needle@[i as int]);
            return false;
        }
    }
    assert(hay@.subrange(k as int, k + needle@.len()) =~= needle@);
    true
}

/// Whether `needle` occurs in `hay`, decided.
pub fn contains_sub(hay: &Vec<u8>, needle: &Vec<u8>) -> (r: bool)
    ensures
        r == has_substring(hay@, needle@),
{
    let m = needle.len();
    let n = hay.len();
    if m > n {
        assert(!has_substring(hay@, needle@));
        return false;
    }
    let last = n - m;
    let mut k: usize = 0;
    while k < last
        invariant
            m == needle@.len(),
            n == hay@.len(),
            m <= n,
            last == n - m,
            k <= last,
            forall|j: int| 0 <= j < k ==> #[trigger] hay@.subrange(j, j + needle@.len()) != needle@,
        decreases last - k,
    {
        if matches_at(hay, needle, k) {
            return true;
        }
        k = k + 1;
    }
    if matches_at(hay, needle, last) {
        return true;
    }
    assert(forall|j: int| 0 <= j <= last ==> #[trigger] hay@.subrange(j, j + needle@.len()) != needle@);
    assert(!has_substring(hay@, needle@));
    false
}

/// What one operator says, decided.
pub fn compare_values(actual: &JsonValue, expected: &JsonValue, op: ComparisonOperator) -> (r: bool)
    ensures
        r == compare_model(actual.model(), expected.model(), op),
{
    match op {
        ComparisonOperator::Eq => json_eq(actual, expected),
        ComparisonOperator::Ne => !json_eq(actual, expected),
        ComparisonOperator::Gt => match (actual, expected) {
            (JsonValue::Int(a), JsonValue::Int(b)) => *a > *b,
            (JsonValue::Str(a), JsonValue::Str(b)) => lex_less(b, a),
            _ => false,
        },
        ComparisonOperator::Ge => match (actual, expected) {
            (JsonValue::Int(a), JsonValue::Int(b)) => *a >= *b,
            (JsonValue::Str(a), JsonValue::Str(b)) => !lex_less(a, b),
            _ => false,
        },
        ComparisonOperator::Lt => match (actual, expected) {
            (JsonValue::Int(a), JsonValue::Int(b)) => *a < *b,
            (JsonValue::Str(a), JsonValue::Str(b)) => lex_less(a, b),
            _ => false,
        },
        ComparisonOperator::Le => match (actual, expected) {
            (JsonValue::Int(a), JsonValue::Int(b)) => *a <= *b,
            (JsonValue::Str(a), JsonValue::Str(b)) => !lex_less(b, a),
            _ => false,
        },
        ComparisonOperator::Contains => match (actual, expected) {
            (JsonValue::Str(a), JsonValue::Str(b)) => contains_sub(a, b),
            (JsonValue::Arr(elems), _) => {
                proof {
                    lemma_model_arr(*actual);
                }
                let ghost am = actual.model()->Arr_0;
                let n = elems.len();
                let mut found = false;
                for i in 0..n
                    invariant
                        n == elems@.len(),
                        actual is Arr && actual->Arr_0 == *elems,
                        am == actual.model()->Arr_0,
                        am.len() == n,
                        op is Contains,
                        forall|j: int| 0 <= j < n ==> am[j] == elems@[j].model(),
                        !found,
                        forall|j: int| 0 <= j < i ==> am[j] != expected.model(),
                    decreases n - i,
                {
                    if json_eq(&elems[i], expected) {
                        proof {
                            let w = i as int;
                            assert(actual.model()->Arr_0[w] == expected.model());
                            assert(compare_model(actual.model(), expected.model(), op));
                        }
                        return true;
                    }
                }
                false
            },
            (JsonValue::Str(_), _) => false,
            _ => false,
        },
        ComparisonOperator::StartsWith => match (actual, expected) {
            (JsonValue::Str(a), JsonValue::Str(b)) => starts_with(a, b),
            _ => false,
        },
        ComparisonOperator::EndsWith => match (actual, expected) {
            (JsonValue::Str(a), JsonValue::Str(b)) => ends_with(a, b),
            _ => false,
        },
    }
}

/// The lookup rule, decided.
pub fn criterion_check(rec: &JsonValue, field: &Vec<u8>, op: ComparisonOperator, expected: &JsonValue) -> (r: bool)
    ensures
        r == criterion_holds(rec.model(), field@, op, expected.model()),
{
    match crate::json::obj_get(rec, field) {
        Some(actual) => compare_values(actual, expected, op),
        None => {
            let data_k = crate::record::data_key_bytes();
            match crate::json::obj_get(rec, &data_k) {
                Some(d) => {
                    if !matches!(d, JsonValue::Obj(_)) {
                        return false;
                    }
                    match crate::json::obj_get(d, field) {
                        Some(actual) => compare_values(actual, expected, op),
                        None => false,
                    }
                },
                None => false,
            }
        },
    }
}

/// Whether a record satisfies every pair of an equality criteria list,
/// decided.
pub fn matches_criteria(rec: &JsonValue, criteria: &Vec<(Vec<u8>, JsonValue)>) -> (r: bool)
    ensures
        r == matches_pairs(rec.model(), crate::json::obj_model(criteria@)),
{
    if !matches!(rec, JsonValue::Obj(_)) {
        return false;
    }
    let ghost cm = crate::json::obj_model(criteria@);
    proof {
        crate::json::lemma_obj_model(criteria@);
    }
    let n = criteria.len();
    for k in 0..n
        invariant
            n == criteria@.len(),
            cm == crate::json::obj_model(criteria@),
            cm.len() == n,
            forall|j: int| 0 <= j < n ==> cm[j] == (criteria@[j].0@, criteria@[j].1.model()),
            rec is Obj,
            forall|j: int| 0 <= j < k
                ==> criterion_holds(rec.model(), (#[trigger] cm[j]).0, ComparisonOperator::Eq, cm[j].1),
        decreases n - k,
    {
        if !criterion_check(rec, &criteria[k].0, ComparisonOperator::Eq, &criteria[k].1) {
            assert(!criterion_holds(rec.model(), cm[k as int].0, ComparisonOperator::Eq, cm[k as int].1));
            return false;
        }
    }
    true
}

/// The documents that a list of advanced criteria stands for.
pub open spec fn triples_model(criteria: Seq<(Vec<u8>, ComparisonOperator, JsonValue)>) -> Seq<(Seq<u8>, ComparisonOperator, Json)>
    decreases criteria,
{
    if criteria.len() == 0 {
        Seq::empty()
    } else {
        seq![(criteria[0].0@, criteria[0].1, criteria[0].2.model())]
            + triples_model(criteria.subrange(1, criteria.len() as int))
    }
}

/// `triples_model` maps the list pointwise.
pub proof fn lemma_triples_model(criteria: Seq<(Vec<u8>, ComparisonOperator, JsonValue)>)
    ensures
        triples_model(criteria).len() == criteria.len(),
        forall|i: int| 0 <= i < criteria.len()
            ==> triples_model(criteria)[i] == (criteria[i].0@, criteria[i].1, criteria[i].2.model()),
    decreases criteria,
{
    if criteria.len() > 0 {
        lemma_triples_model(criteria.subrange(1, criteria.len() as int));
    }
}

/// Whether a record satisfies every triple of an advanced criteria list,
/// decided.
pub fn matches_criteria_advanced(rec: &JsonValue, criteria: &Vec<(Vec<u8>, ComparisonOperator, JsonValue)>) -> (r: bool)
    ensures
        r == matches_triples(rec.model(), triples_model(criteria@)),
{
    if !matches!(rec, JsonValue::Obj(_)) {
        return false;
    }
    let ghost cm = triples_model(criteria@);
    proof {
        lemma_triples_model(criteria@);
    }
    let n = criteria.len();
    for k in 0..n
        invariant
            n == criteria@.len(),
            cm == triples_model(criteria@),
            cm.len() == n,
            forall|j: int| 0 <= j < n
                ==> cm[j] == (criteria@[j].0@, criteria@[j].1, criteria@[j].2.model()),
            rec is Obj,
            forall|j: int| 0 <= j < k
                ==> criterion_holds(rec.model(), (#[trigger] cm[j]).0, cm[j].1, cm[j].2),
        decreases n - k,
    {
        if !criterion_check(rec, &criteria[k].0, criteria[k].1, &criteria[k].2) {
            assert(!criterion_holds(rec.model(), cm[k as int].0, cm[k as int].1, cm[k as int].2));
            return false;
        }
    }
    true
}

} // verus!
