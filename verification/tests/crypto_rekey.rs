//! Sealing, opening, tampering, and the password-change pipeline.

use chain_db::b64::{b64_decode, b64_encode};
use chain_db::chaindb::{
    reencrypt_blob, reencrypt_line, reencrypt_lines, ChainDB, Config,
};
use chain_db::crypto::DataEncryption;
use chain_db::errors::ChainDBError;
use chain_db::json::JsonValue;
use chain_db::table::Table;

fn b(text: &str) -> Vec<u8> {
    text.as_bytes().to_vec()
}

fn record_with(key: &str, value: &str) -> JsonValue {
    JsonValue::Obj(vec![(
        b("data"),
        JsonValue::Obj(vec![(b(key), JsonValue::Str(b(value)))]),
    )])
}

fn plain_history(table: &Table) -> Vec<String> {
    table
        .get_history(usize::MAX)
        .unwrap()
        .iter()
        .map(|rec| {
            String::from_utf8(chain_db::codec::to_bytes(rec)).unwrap()
        })
        .collect()
}

#[test]
fn decrypt_inverts_encrypt() {
    let enc = DataEncryption::new("p");
    let plain = b("any byte string, even a long and winding one");
    let sealed = enc.encrypt(&plain).unwrap();
    assert_ne!(sealed, plain);
    assert_eq!(enc.decrypt(&sealed).unwrap(), plain);
}

#[test]
fn two_seals_of_one_plaintext_differ() {
    let enc = DataEncryption::new("p");
    let plain = b("same plaintext");
    let a = enc.encrypt(&plain).unwrap();
    let c = enc.encrypt(&plain).unwrap();
    assert_ne!(a, c);
    assert_eq!(enc.decrypt(&a).unwrap(), enc.decrypt(&c).unwrap());
}

#[test]
fn a_flipped_bit_fails_authentication() {
    let enc = DataEncryption::new("p");
    let sealed = enc.encrypt(&b("payload")).unwrap();
    for position in [0, 12, sealed.len() - 1] {
        let mut tampered = sealed.clone();
        tampered[position] ^= 1;
        assert!(matches!(
            enc.decrypt(&tampered).unwrap_err(),
            ChainDBError::DecryptionError(_)
        ));
    }
}

#[test]
fn short_blobs_are_rejected_outright() {
    let enc = DataEncryption::new("p");
    let err = enc.decrypt(&vec![0u8; 11]).unwrap_err();
    assert!(matches!(err, ChainDBError::DecryptionError(_)));
}

#[test]
fn wrong_key_fails_authentication() {
    let enc = DataEncryption::new("p");
    let other = DataEncryption::new("q");
    let sealed = enc.encrypt(&b("payload")).unwrap();
    assert!(other.decrypt(&sealed).is_err());
}

#[test]
fn base64_round_trips_and_rewrites() {
    let data = vec![0xffu8];
    let text = b64_encode(&data);
    assert_eq!(text, b("/w=="));
    assert_eq!(b64_decode(&text).unwrap(), data);
    assert!(b64_decode(&b("not base64!!")).is_err());
}

#[test]
fn connect_checks_each_credential() {
    let (_db, blob) = ChainDB::create_database("t", "u", "p").unwrap();
    assert!(ChainDB::connect("t", "u", "p", &blob).is_ok());
    // A wrong password changes the key, so the blob does not open.
    assert!(matches!(
        ChainDB::connect("t", "u", "wrong", &blob),
        Err(ChainDBError::DecryptionError(_))
    ));
    // A wrong name or user opens the blob but fails the comparison.
    assert!(matches!(
        ChainDB::connect("other", "u", "p", &blob),
        Err(ChainDBError::InvalidCredentials(_))
    ));
    assert!(matches!(
        ChainDB::connect("t", "someone", "p", &blob),
        Err(ChainDBError::InvalidCredentials(_))
    ));
}

#[test]
fn connect_rejects_a_blob_that_holds_no_configuration() {
    // Seals under the right key, but the plaintext is no configuration.
    let enc = DataEncryption::new("p");
    let blob = enc.encrypt(&b("not a configuration at all")).unwrap();
    assert!(matches!(
        ChainDB::connect("t", "u", "p", &blob),
        Err(ChainDBError::SerializationError(_))
    ));
}

#[test]
fn auth_token_is_base64_of_credentials() {
    let (_db, blob) = ChainDB::create_database("t", "u", "p").unwrap();
    let conn = ChainDB::connect("t", "u", "p", &blob).unwrap();
    assert_eq!(conn.auth_token, b("dDp1OnA="));

    let (_db2, blob2) = ChainDB::create_database("test_db", "test_user", "test_pass").unwrap();
    let conn2 = ChainDB::connect("test_db", "test_user", "test_pass", &blob2).unwrap();
    assert_eq!(conn2.auth_token, b("dGVzdF9kYjp0ZXN0X3VzZXI6dGVzdF9wYXNz"));
}

#[test]
fn config_new_keeps_its_parts() {
    let config = Config::new("t", "u", "p");
    assert_eq!(config.name, "t");
    assert_eq!(config.user, "u");
    assert_eq!(config.password, "p");
}

#[test]
fn rejecting_an_unchanged_password() {
    let (db, _blob) = ChainDB::create_database("t", "u", "p").unwrap();
    assert!(matches!(
        db.check_new_password("p").unwrap_err(),
        ChainDBError::ValidationError(_)
    ));
    assert!(db.check_new_password("q").is_ok());
}

#[test]
fn change_password_preserves_history_and_rotates_the_key() {
    let (db, _config_blob) = ChainDB::create_database("t", "u", "p").unwrap();
    let old_enc = db.encryption();
    let mut table = Table::new(db.encryption());
    table.persist(&record_with("k", "v")).unwrap();
    table.persist(&record_with("k", "v2")).unwrap();
    let before = plain_history(&table);

    // The rotation pipeline: every line and blob re-sealed, the config
    // rewritten under the new password.
    db.check_new_password("q").unwrap();
    let new_enc = DataEncryption::new("q");
    let old_lines = table.segment_lines(0);
    let new_lines = reencrypt_lines(&old_enc, &new_enc, &old_lines).unwrap();
    let meta_blob = table.metadata().to_blob(&old_enc).unwrap();
    let new_meta_blob = reencrypt_blob(&old_enc, &new_enc, &meta_blob).unwrap();
    let new_config_blob = db.reencrypted_config("q").unwrap();

    // The old password no longer opens the config; the new one does.
    assert!(ChainDB::connect("t", "u", "p", &new_config_blob).is_err());
    let conn = ChainDB::connect("t", "u", "q", &new_config_blob).unwrap();

    // The history reads back byte-for-byte in plaintext.
    let new_meta =
        chain_db::table::TableMetadata::from_blob(&conn.db.encryption(), &new_meta_blob).unwrap();
    let reloaded = Table::load(conn.db.encryption(), new_meta, new_lines).unwrap();
    assert_eq!(plain_history(&reloaded), before);

    // The old key no longer opens any line.
    let reencrypted = reloaded.segment_lines(0);
    assert!(reencrypt_line(&old_enc, &new_enc, &reencrypted[0]).is_err());
}

#[test]
fn adopting_the_new_password_updates_the_handle() {
    let (mut db, _blob) = ChainDB::create_database("t", "u", "p").unwrap();
    db.adopt_password("q");
    let blob = db.reencrypted_config("q2").unwrap();
    // The handle now seals configs from its own name and user.
    assert!(ChainDB::connect("t", "u", "q2", &blob).is_ok());
}
