//! Searches: the lookup rule, the equality filter, and every operator of
//! the advanced filter.

use chain_db::crypto::DataEncryption;
use chain_db::json::JsonValue;
use chain_db::query::ComparisonOperator;
use chain_db::table::Table;

fn b(text: &str) -> Vec<u8> {
    text.as_bytes().to_vec()
}

fn jstr(text: &str) -> JsonValue {
    JsonValue::Str(b(text))
}

fn person(name: &str, age: i64) -> JsonValue {
    JsonValue::Obj(vec![(
        b("data"),
        JsonValue::Obj(vec![(b("name"), jstr(name)), (b("age"), JsonValue::Int(age))]),
    )])
}

fn name_of(rec: &JsonValue) -> String {
    match rec {
        JsonValue::Obj(entries) => {
            for (k, v) in entries {
                if k.as_slice() == b"data" {
                    if let JsonValue::Obj(inner) = v {
                        for (k2, v2) in inner {
                            if k2.as_slice() == b"name" {
                                if let JsonValue::Str(s) = v2 {
                                    return String::from_utf8(s.clone()).unwrap();
                                }
                            }
                        }
                    }
                }
            }
            panic!("no name");
        }
        _ => panic!("not an object"),
    }
}

fn sample_table() -> Table {
    let mut table = Table::new(DataEncryption::new("p"));
    table.persist(&person("ann", 30)).unwrap();
    table.persist(&person("bob", 20)).unwrap();
    table.persist(&person("carol", 30)).unwrap();
    table.persist(&person("dave", 41)).unwrap();
    table
}

#[test]
fn find_where_matches_all_pairs_in_reverse_order() {
    let table = sample_table();
    let criteria = vec![(b("age"), JsonValue::Int(30))];
    let found = table.find_where(&criteria, None, true).unwrap();
    assert_eq!(found.len(), 2);
    assert_eq!(name_of(&found[0]), "carol");
    assert_eq!(name_of(&found[1]), "ann");
}

#[test]
fn find_where_forward_order_and_limit() {
    let table = sample_table();
    let criteria = vec![(b("age"), JsonValue::Int(30))];
    let found = table.find_where(&criteria, Some(1), false).unwrap();
    assert_eq!(found.len(), 1);
    assert_eq!(name_of(&found[0]), "ann");
}

#[test]
fn find_where_on_two_fields_needs_both() {
    let table = sample_table();
    let criteria = vec![(b("age"), JsonValue::Int(30)), (b("name"), jstr("ann"))];
    let found = table.find_where(&criteria, None, true).unwrap();
    assert_eq!(found.len(), 1);
    assert_eq!(name_of(&found[0]), "ann");
}

#[test]
fn find_where_sees_top_level_doc_id() {
    let mut table = Table::new(DataEncryption::new("p"));
    table.persist(&person("ann", 30)).unwrap();
    let id = table.persist(&person("bob", 20)).unwrap();
    let criteria = vec![(b("doc_id"), JsonValue::Str(id))];
    let found = table.find_where(&criteria, None, true).unwrap();
    assert_eq!(found.len(), 1);
    assert_eq!(name_of(&found[0]), "bob");
}

#[test]
fn find_where_without_match_is_empty() {
    let table = sample_table();
    let criteria = vec![(b("age"), JsonValue::Int(99))];
    assert!(table.find_where(&criteria, None, true).unwrap().is_empty());
    let absent = vec![(b("no_such_field"), JsonValue::Int(1))];
    assert!(table.find_where(&absent, None, true).unwrap().is_empty());
}

#[test]
fn advanced_numeric_comparisons() {
    let table = sample_table();
    let gt = vec![(b("age"), ComparisonOperator::Gt, JsonValue::Int(30))];
    let found = table.find_where_advanced(&gt, None, false).unwrap();
    assert_eq!(found.len(), 1);
    assert_eq!(name_of(&found[0]), "dave");

    let ge = vec![(b("age"), ComparisonOperator::Ge, JsonValue::Int(30))];
    assert_eq!(table.find_where_advanced(&ge, None, false).unwrap().len(), 3);

    let lt = vec![(b("age"), ComparisonOperator::Lt, JsonValue::Int(30))];
    let found = table.find_where_advanced(&lt, None, false).unwrap();
    assert_eq!(found.len(), 1);
    assert_eq!(name_of(&found[0]), "bob");

    let le = vec![(b("age"), ComparisonOperator::Le, JsonValue::Int(30))];
    assert_eq!(table.find_where_advanced(&le, None, false).unwrap().len(), 3);

    let ne = vec![(b("age"), ComparisonOperator::Ne, JsonValue::Int(30))];
    assert_eq!(table.find_where_advanced(&ne, None, false).unwrap().len(), 2);

    let eq = vec![(b("age"), ComparisonOperator::Eq, JsonValue::Int(30))];
    assert_eq!(table.find_where_advanced(&eq, None, false).unwrap().len(), 2);
}

#[test]
fn advanced_string_comparisons() {
    let table = sample_table();
    let gt = vec![(b("name"), ComparisonOperator::Gt, jstr("bob"))];
    let found = table.find_where_advanced(&gt, None, false).unwrap();
    assert_eq!(found.len(), 2);
    assert_eq!(name_of(&found[0]), "carol");
    assert_eq!(name_of(&found[1]), "dave");

    let contains = vec![(b("name"), ComparisonOperator::Contains, jstr("aro"))];
    let found = table.find_where_advanced(&contains, None, false).unwrap();
    assert_eq!(found.len(), 1);
    assert_eq!(name_of(&found[0]), "carol");

    let starts = vec![(b("name"), ComparisonOperator::StartsWith, jstr("da"))];
    let found = table.find_where_advanced(&starts, None, false).unwrap();
    assert_eq!(found.len(), 1);
    assert_eq!(name_of(&found[0]), "dave");

    let ends = vec![(b("name"), ComparisonOperator::EndsWith, jstr("ob"))];
    let found = table.find_where_advanced(&ends, None, false).unwrap();
    assert_eq!(found.len(), 1);
    assert_eq!(name_of(&found[0]), "bob");
}

#[test]
fn advanced_mixed_types_never_order() {
    let table = sample_table();
    // A number against a string holds under no order operator.
    let gt = vec![(b("age"), ComparisonOperator::Gt, jstr("30"))];
    assert!(table.find_where_advanced(&gt, None, false).unwrap().is_empty());
    let contains = vec![(b("age"), ComparisonOperator::Contains, jstr("3"))];
    assert!(table.find_where_advanced(&contains, None, false).unwrap().is_empty());
}

#[test]
fn advanced_array_membership() {
    let mut table = Table::new(DataEncryption::new("p"));
    let rec = JsonValue::Obj(vec![(
        b("data"),
        JsonValue::Obj(vec![(
            b("tags"),
            JsonValue::Arr(vec![jstr("red"), jstr("green")]),
        )]),
    )]);
    table.persist(&rec).unwrap();

    let hit = vec![(b("tags"), ComparisonOperator::Contains, jstr("green"))];
    assert_eq!(table.find_where_advanced(&hit, None, true).unwrap().len(), 1);
    let miss = vec![(b("tags"), ComparisonOperator::Contains, jstr("blue"))];
    assert!(table.find_where_advanced(&miss, None, true).unwrap().is_empty());
}

#[test]
fn advanced_reverse_with_limit() {
    let table = sample_table();
    let ge = vec![(b("age"), ComparisonOperator::Ge, JsonValue::Int(30))];
    let found = table.find_where_advanced(&ge, Some(2), true).unwrap();
    assert_eq!(found.len(), 2);
    assert_eq!(name_of(&found[0]), "dave");
    assert_eq!(name_of(&found[1]), "carol");
}
