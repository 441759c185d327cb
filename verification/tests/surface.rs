//! The facade's data shapes, the event keys, and the legacy ledger.

use chain_db::api::{split_credentials, ApiResponse, TableData, CORS};
use chain_db::events::{candidate_subscriptions, Event, EventType};
use chain_db::json::{json_eq, JsonValue};
use chain_db::ledger::{hash_generator, AccountId, Base64, Blockchain};

fn b(text: &str) -> Vec<u8> {
    text.as_bytes().to_vec()
}

#[test]
fn api_response_envelopes() {
    let ok: ApiResponse<u32> = ApiResponse::success(7);
    assert!(ok.success);
    assert_eq!(ok.data, Some(7));
    assert!(ok.message.is_none());

    let err: ApiResponse<u32> = ApiResponse::error("no such table");
    assert!(!err.success);
    assert!(err.data.is_none());
    assert_eq!(err.message.as_deref(), Some("no such table"));
}

#[test]
fn cors_headers_are_permissive() {
    let headers = CORS::headers();
    assert_eq!(headers.len(), 5);
    assert_eq!(headers[0].0, "Access-Control-Allow-Origin");
    assert_eq!(headers[0].1, "*");
}

#[test]
fn basic_credentials_split_on_two_colons() {
    let (db, user, pass) = split_credentials(&b("t:u:p")).unwrap();
    assert_eq!(db, b("t"));
    assert_eq!(user, b("u"));
    assert_eq!(pass, b("p"));

    assert!(split_credentials(&b("only:one")).is_none());
    assert!(split_credentials(&b("t:u:p:extra")).is_none());
    assert!(split_credentials(&b("nocolons")).is_none());
}

#[test]
fn table_data_round_trips_through_json() {
    let mut data = TableData::new();
    data.data.push((b("k"), JsonValue::Str(b("v"))));
    data.doc_id = Some(b("some-id"));
    let doc = data.to_json();
    let back = TableData::from_json(&doc);
    assert_eq!(back.doc_id.as_deref(), Some(b("some-id").as_slice()));
    assert_eq!(back.data.len(), 1);
    assert_eq!(back.data[0].0, b("k"));
    assert!(json_eq(&back.data[0].1, &JsonValue::Str(b("v"))));
}

#[test]
fn table_data_from_non_object_is_empty() {
    let data = TableData::from_json(&JsonValue::Int(4));
    assert!(data.data.is_empty());
    assert!(data.doc_id.is_none());
}

#[test]
fn events_address_three_keys_most_specific_first() {
    let ev = Event::new(EventType::TablePersist, "db1", "t1", None);
    assert_eq!(ev.database, "db1");
    assert_eq!(ev.table, "t1");
    let keys = candidate_subscriptions(&ev);
    assert_eq!(keys.len(), 3);
    assert_eq!(keys[0].database.as_deref(), Some("db1"));
    assert_eq!(keys[0].table.as_deref(), Some("t1"));
    assert_eq!(keys[1].database.as_deref(), Some("db1"));
    assert!(keys[1].table.is_none());
    assert!(keys[2].database.is_none());
    assert!(keys[2].table.is_none());
    for key in &keys {
        assert_eq!(key.event_type, EventType::TablePersist);
    }
}

#[test]
fn ledger_hashes_are_hex_digests() {
    assert_eq!(
        hash_generator("first_gen"),
        "d38e1506b504a21fb26dd0d2f05cea30f13bc45c2af14f3499968b1c9f2380db"
    );
    assert_eq!(
        AccountId::parse("alice".to_string()),
        "2bd806c97f0e00af1a1fc3328fa763a9269723c8db8fac4f93af71db186d6e90"
    );
}

#[test]
fn ledger_chain_starts_at_genesis() {
    let chain = Blockchain::new();
    assert!(chain.unconfirmed_transactions.is_empty());
    let blocks = chain.chain(1000);
    assert_eq!(blocks.len(), 1);
    assert_eq!(blocks[0].height, 0);
    assert_eq!(blocks[0].prev_hash, "0");
    assert_eq!(
        blocks[0].hash,
        "d38e1506b504a21fb26dd0d2f05cea30f13bc45c2af14f3499968b1c9f2380db"
    );
    assert!(chain.chain(0).is_empty());
}

#[test]
fn ledger_base64_is_unpadded() {
    let encoded = Base64::encode(vec![0xff]);
    assert_eq!(encoded, "/w");
    assert_eq!(Base64::decode(encoded).unwrap(), vec![0xff]);
    assert!(Base64::decode("!!!".to_string()).is_none());
}
