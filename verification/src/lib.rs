//! ChainDB: an embedded, append-only, per-record-encrypted store.
//!
//! Records are free-form JSON documents. Each table keeps an append-only
//! log of fixed-capacity segments; every stored line is the base64 encoding
//! of an authenticated ciphertext of one record. The key is derived from
//! the owner's password.

pub mod api;
pub mod b64;
pub mod chaindb;
pub mod codec;
pub mod crypto;
pub mod errors;
pub mod events;
pub mod json;
pub mod ledger;
pub mod query;
pub mod record;
pub mod sys;
pub mod table;
