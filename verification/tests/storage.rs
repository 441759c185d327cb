//! The engine exercised end to end in memory: databases, tables,
//! writes, reads and searches.

use chain_db::chaindb::ChainDB;
use chain_db::crypto::DataEncryption;
use chain_db::errors::ChainDBError;
use chain_db::json::{json_eq, JsonValue};
use chain_db::table::{Table, TableMetadata};

fn b(text: &str) -> Vec<u8> {
    text.as_bytes().to_vec()
}

fn jstr(text: &str) -> JsonValue {
    JsonValue::Str(b(text))
}

fn record_with(key: &str, value: &str) -> JsonValue {
    JsonValue::Obj(vec![(
        b("data"),
        JsonValue::Obj(vec![(b(key), jstr(value))]),
    )])
}

fn field<'a>(rec: &'a JsonValue, name: &str) -> Option<&'a JsonValue> {
    match rec {
        JsonValue::Obj(entries) => {
            for (k, v) in entries {
                if k.as_slice() == name.as_bytes() {
                    return Some(v);
                }
            }
            None
        }
        _ => None,
    }
}

fn data_field<'a>(rec: &'a JsonValue, name: &str) -> Option<&'a JsonValue> {
    field(field(rec, "data")?, name)
}

fn str_of(v: &JsonValue) -> String {
    match v {
        JsonValue::Str(s) => String::from_utf8(s.clone()).unwrap(),
        _ => panic!("not a string"),
    }
}

#[test]
fn test_db_creation() {
    let result = ChainDB::create_database("test_db", "test_user", "test_pass");
    assert!(result.is_ok());
    let (_db, config_blob) = result.unwrap();

    let connection = ChainDB::connect("test_db", "test_user", "test_pass", &config_blob);
    assert!(connection.is_ok());
}

#[test]
fn test_table_operations() {
    let (db, _config_blob) =
        ChainDB::create_database("test_db", "test_user", "test_pass").unwrap();
    let mut table = Table::new(db.encryption());

    let mut table_data = record_with("test_key", "test_value");
    assert!(table.persist(&table_data).is_ok());

    table_data = record_with("test_key", "test_value_2");
    assert!(table.persist(&table_data).is_ok());

    let result = table.get_table().unwrap();
    assert_eq!(str_of(data_field(&result, "test_key").unwrap()), "test_value_2");

    let doc_id = match field(&result, "doc_id").unwrap() {
        JsonValue::Str(s) => s.clone(),
        _ => panic!("doc_id is not a string"),
    };

    let new_data = record_with("test_key", "updated_value");
    assert!(table.update(&new_data, &doc_id).is_ok());

    let history = table.get_history(50).unwrap();
    assert_eq!(history.len(), 2);
    assert_eq!(str_of(data_field(&history[0], "test_key").unwrap()), "updated_value");
    assert_eq!(str_of(data_field(&history[1], "test_key").unwrap()), "test_value");
}

#[test]
fn persist_assigns_doc_id_and_latest_wins() {
    let enc = DataEncryption::new("p");
    let mut table = Table::new(enc);
    let id = table.persist(&record_with("k", "v")).unwrap();
    assert_eq!(id.len(), 36);
    assert_eq!(id[8], b'-');
    assert_eq!(id[13], b'-');
    assert_eq!(id[18], b'-');
    assert_eq!(id[23], b'-');

    let latest = table.get_table().unwrap();
    assert_eq!(str_of(data_field(&latest, "k").unwrap()), "v");
    let stored_id = match field(&latest, "doc_id").unwrap() {
        JsonValue::Str(s) => s.clone(),
        _ => panic!("doc_id is not a string"),
    };
    assert_eq!(stored_id, id);
}

#[test]
fn doc_ids_differ_between_records() {
    let enc = DataEncryption::new("p");
    let mut table = Table::new(enc);
    let id1 = table.persist(&record_with("k", "v")).unwrap();
    let id2 = table.persist(&record_with("k", "v")).unwrap();
    assert_ne!(id1, id2);
}

#[test]
fn history_is_most_recent_first() {
    let enc = DataEncryption::new("p");
    let mut table = Table::new(enc);
    table.persist(&record_with("k", "v")).unwrap();
    table.persist(&record_with("k", "v2")).unwrap();

    let history = table.get_history(10).unwrap();
    assert_eq!(history.len(), 2);
    assert_eq!(str_of(data_field(&history[0], "k").unwrap()), "v2");
    assert_eq!(str_of(data_field(&history[1], "k").unwrap()), "v");

    let one = table.get_history(1).unwrap();
    assert_eq!(one.len(), 1);
    assert_eq!(str_of(data_field(&one[0], "k").unwrap()), "v2");
}

#[test]
fn update_preserves_doc_id_and_history_length() {
    let enc = DataEncryption::new("p");
    let mut table = Table::new(enc);
    let doc_id = table.persist(&record_with("k", "v")).unwrap();

    let seg = table.update(&record_with("k", "v3"), &doc_id).unwrap();
    assert_eq!(seg, 0);

    let history = table.get_history(10).unwrap();
    assert_eq!(history.len(), 1);
    assert_eq!(str_of(data_field(&history[0], "k").unwrap()), "v3");
    let kept = match field(&history[0], "doc_id").unwrap() {
        JsonValue::Str(s) => s.clone(),
        _ => panic!("doc_id is not a string"),
    };
    assert_eq!(kept, doc_id);
}

#[test]
fn update_of_unknown_doc_id_is_record_not_found() {
    let enc = DataEncryption::new("p");
    let mut table = Table::new(enc);
    table.persist(&record_with("k", "v")).unwrap();
    let err = table.update(&record_with("k", "v3"), &b("not-a-real-id")).unwrap_err();
    assert!(matches!(err, ChainDBError::RecordNotFound(_)));
}

#[test]
fn update_on_empty_table_is_record_not_found() {
    let enc = DataEncryption::new("p");
    let mut table = Table::new(enc);
    let err = table.update(&record_with("k", "v"), &b("anything")).unwrap_err();
    assert!(matches!(err, ChainDBError::RecordNotFound(_)));
}

#[test]
fn get_table_on_empty_table_fails() {
    let enc = DataEncryption::new("p");
    let table = Table::new(enc);
    assert!(matches!(
        table.get_table(),
        Err(ChainDBError::SerializationError(_))
    ));
}

#[test]
fn get_by_index_walks_append_order() {
    let enc = DataEncryption::new("p");
    let mut table = Table::new(enc);
    table.persist(&record_with("k", "a")).unwrap();
    table.persist(&record_with("k", "b")).unwrap();
    let first = table.get(0).unwrap();
    let second = table.get(1).unwrap();
    assert_eq!(str_of(data_field(&first, "k").unwrap()), "a");
    assert_eq!(str_of(data_field(&second, "k").unwrap()), "b");
    assert!(matches!(
        table.get(2),
        Err(ChainDBError::SerializationError(_))
    ));
}

#[test]
fn segments_roll_over_after_a_thousand_records() {
    let enc = DataEncryption::new("p");
    let mut table = Table::new(enc);
    for i in 0..1500u32 {
        let rec = JsonValue::Obj(vec![(
            b("data"),
            JsonValue::Obj(vec![(b("n"), JsonValue::Int(i as i64))]),
        )]);
        table.persist(&rec).unwrap();
    }
    let meta = table.metadata();
    assert_eq!(meta.total_records, 1500);
    assert_eq!(meta.current_file, 1);
    assert_eq!(table.segment_lines(0).len(), 1000);
    assert_eq!(table.segment_lines(1).len(), 500);
    assert_eq!(table.segment_lines(2).len(), 0);

    let last_three = table.get_history(3).unwrap();
    assert_eq!(last_three.len(), 3);
    for (offset, rec) in last_three.iter().enumerate() {
        match data_field(rec, "n").unwrap() {
            JsonValue::Int(n) => assert_eq!(*n, 1499 - offset as i64),
            _ => panic!("n is not a number"),
        }
    }
}

#[test]
fn table_reloads_from_its_own_lines() {
    let enc = DataEncryption::new("p");
    let mut table = Table::new(enc);
    table.persist(&record_with("k", "v")).unwrap();
    table.persist(&record_with("k", "v2")).unwrap();

    let mut all_lines = table.segment_lines(0);
    all_lines.extend(table.segment_lines(1));
    let meta = table.metadata();

    let reloaded = Table::load(DataEncryption::new("p"), meta, all_lines).unwrap();
    let history = reloaded.get_history(10).unwrap();
    assert_eq!(history.len(), 2);
    assert_eq!(str_of(data_field(&history[0], "k").unwrap()), "v2");
    assert_eq!(str_of(data_field(&history[1], "k").unwrap()), "v");
}

#[test]
fn load_rejects_a_wrong_key() {
    let enc = DataEncryption::new("p");
    let mut table = Table::new(enc);
    table.persist(&record_with("k", "v")).unwrap();
    let lines = table.segment_lines(0);
    let meta = table.metadata();
    assert!(matches!(
        Table::load(DataEncryption::new("q"), meta, lines),
        Err(ChainDBError::DecryptionError(_))
    ));
}

#[test]
fn load_rejects_a_malformed_line() {
    let enc = DataEncryption::new("p");
    let meta = TableMetadata { current_file: 0, total_records: 1 };
    let lines = vec![b("not base64 at all!!")];
    assert!(matches!(
        Table::load(enc, meta, lines),
        Err(ChainDBError::SerializationError(_))
    ));
}

#[test]
fn load_rejects_a_count_mismatch() {
    let enc = DataEncryption::new("p");
    let meta = TableMetadata { current_file: 0, total_records: 2 };
    assert!(matches!(
        Table::load(enc, meta, Vec::new()),
        Err(ChainDBError::SerializationError(_))
    ));
}

#[test]
fn metadata_blob_round_trips() {
    let enc = DataEncryption::new("p");
    let meta = TableMetadata { current_file: 1, total_records: 1500 };
    let blob = meta.to_blob(&enc).unwrap();
    let back = TableMetadata::from_blob(&enc, &blob).unwrap();
    assert_eq!(back.current_file, 1);
    assert_eq!(back.total_records, 1500);
}

#[test]
fn metadata_blob_rejects_a_wrong_key() {
    let enc = DataEncryption::new("p");
    let meta = TableMetadata { current_file: 0, total_records: 0 };
    let blob = meta.to_blob(&enc).unwrap();
    let other = DataEncryption::new("q");
    assert!(TableMetadata::from_blob(&other, &blob).is_err());
}

#[test]
fn caller_supplied_doc_ids_are_stripped() {
    let enc = DataEncryption::new("p");
    let mut table = Table::new(enc);
    let sneaky = JsonValue::Obj(vec![
        (b("doc_id"), jstr("forged-top")),
        (
            b("data"),
            JsonValue::Obj(vec![
                (b("doc_id"), jstr("forged-inner")),
                (b("k"), jstr("v")),
            ]),
        ),
    ]);
    let id = table.persist(&sneaky).unwrap();
    let stored = table.get_table().unwrap();
    let top = match field(&stored, "doc_id").unwrap() {
        JsonValue::Str(s) => s.clone(),
        _ => panic!("doc_id is not a string"),
    };
    assert_eq!(top, id);
    assert!(data_field(&stored, "doc_id").is_none());
    assert_eq!(str_of(data_field(&stored, "k").unwrap()), "v");
}

#[test]
fn records_survive_a_round_trip_unchanged() {
    let enc = DataEncryption::new("p");
    let mut table = Table::new(enc);
    let nested = JsonValue::Obj(vec![(
        b("data"),
        JsonValue::Obj(vec![
            (b("text"), jstr("line\nbreak \"quoted\" back\\slash")),
            (b("flag"), JsonValue::Bool(true)),
            (b("nothing"), JsonValue::Null),
            (b("big"), JsonValue::Int(i64::MAX)),
            (b("small"), JsonValue::Int(i64::MIN)),
            (
                b("list"),
                JsonValue::Arr(vec![JsonValue::Int(1), jstr("two"), JsonValue::Null]),
            ),
        ]),
    )]);
    table.persist(&nested).unwrap();

    let lines = table.segment_lines(0);
    let meta = table.metadata();
    let reloaded = Table::load(DataEncryption::new("p"), meta, lines).unwrap();
    let back = reloaded.get_table().unwrap();
    let original = table.get_table().unwrap();
    assert!(json_eq(&back, &original));
    assert_eq!(
        str_of(data_field(&back, "text").unwrap()),
        "line\nbreak \"quoted\" back\\slash"
    );
}
