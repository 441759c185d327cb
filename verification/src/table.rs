//! The table engine: an append-only, per-record-encrypted log.
//!
//! A table's canonical order is its append order. On disk the log is cut
//! into segments of `RECORDS_PER_FILE` lines; here the store keeps the
//! flat list of stored lines next to the records they seal, and hands
//! segments out by index. Metadata names the current segment and the
//! record count, and is sealed under the same key.

use vstd::prelude::*;

use crate::b64::{b64_decode, b64_decoded, b64_encode};
use crate::codec::{parse_json, ser, to_bytes};
use crate::crypto::{aead_open, DataEncryption};
use crate::errors::ChainDBError;
use crate::json::{
    arr_model, bytes_eq, json_clone, lemma_arr_model, lemma_arr_model_snoc, lemma_model_obj,
    obj_get, Json, JsonValue,
};
use crate::query::{matches_criteria, matches_criteria_advanced, matches_pairs, matches_triples,
    triples_model, ComparisonOperator};
use crate::record::{has_doc_id, prepared, prepare_record, doc_id_key_bytes};
use crate::sys::new_doc_id;

verus! {

broadcast use vstd::std_specs::vec::group_vec_axioms;

/// Capacity of one segment file, in records.
pub const RECORDS_PER_FILE: u64 = 1000;

/// The store never holds this many records: the count must stay below
/// what a segment index of 32 bits and a signed 64-bit integer carry.
pub const MAX_TOTAL_RECORDS: u64 = 4_294_967_296_000;

/// Metadata kept per table: which segment is current and how many
/// records the table holds in total.
#[derive(Clone, Copy, Debug)]
pub struct TableMetadata {
    pub current_file: u32,
    pub total_records: u64,
}

/// The key `current_file`.
pub open spec fn current_file_key() -> Seq<u8> {
    seq![99u8, 117u8, 114u8, 114u8, 101u8, 110u8, 116u8, 95u8, 102u8, 105u8, 108u8, 101u8]
}

/// The key `total_records`.
pub open spec fn total_records_key() -> Seq<u8> {
    seq![116u8, 111u8, 116u8, 97u8, 108u8, 95u8, 114u8, 101u8, 99u8, 111u8, 114u8, 100u8, 115u8]
}

/// Metadata as the document it is stored as.
pub open spec fn meta_model(m: TableMetadata) -> Json {
    Json::Obj(
        seq![
            (current_file_key(), Json::Int(m.current_file as int)),
            (total_records_key(), Json::Int(m.total_records as int)),
        ],
    )
}

/// The key `current_file` as a byte string.
fn current_file_key_bytes() -> (r: Vec<u8>)
    ensures
        r@ == current_file_key(),
{
    let mut k: Vec<u8> = Vec::new();
    k.push(99);
    k.push(117);
    k.push(114);
    k.push(114);
    k.push(101);
    k.push(110);
    k.push(116);
    k.push(95);
    k.push(102);
    k.push(105);
    k.push(108);
    k.push(101);
    proof {
        assert(k@ =~= current_file_key());
    }
    k
}

/// The key `total_records` as a byte string.
fn total_records_key_bytes() -> (r: Vec<u8>)
    ensures
        r@ == total_records_key(),
{
    let mut k: Vec<u8> = Vec::new();
    k.push(116);
    k.push(111);
    k.push(116);
    k.push(97);
    k.push(108);
    k.push(95);
    k.push(114);
    k.push(101);
    k.push(99);
    k.push(111);
    k.push(114);
    k.push(100);
    k.push(115);
    proof {
        assert(k@ =~= total_records_key());
    }
    k
}

/// Metadata as an executable document.
fn meta_to_json(m: &TableMetadata) -> (r: JsonValue)
    requires
        m.total_records < MAX_TOTAL_RECORDS,
    ensures
        r.model() == meta_model(*m),
{
    let mut entries: Vec<(Vec<u8>, JsonValue)> = Vec::new();
    entries.push((current_file_key_bytes(), JsonValue::Int(m.current_file as i64)));
    entries.push((total_records_key_bytes(), JsonValue::Int(m.total_records as i64)));
    let r = JsonValue::Obj(entries);
    proof {
        lemma_model_obj(r);
        assert(r.model()->Obj_0 =~= meta_model(*m)->Obj_0);
    }
    r
}

/// The canonical text of a metadata document, laid out: brace, the
/// quoted first key with its colon, the segment digits, the quoted
/// second key with its colon, the count digits, brace.
proof fn lemma_meta_text(m: TableMetadata)
    ensures
        ser(meta_model(m)) == seq![123u8, 34u8] + current_file_key() + seq![34u8, 58u8]
            + crate::codec::dec_digits(m.current_file as int) + seq![44u8, 34u8]
            + total_records_key() + seq![34u8, 58u8] + crate::codec::dec_digits(
            m.total_records as int,
        ) + seq![125u8],
{
    let o = meta_model(m)->Obj_0;
    assert forall|i: int| 0 <= i < current_file_key().len() implies 32
        <= #[trigger] current_file_key()[i] && current_file_key()[i] != 34
        && current_file_key()[i] != 92 by {}
    assert forall|i: int| 0 <= i < total_records_key().len() implies 32
        <= #[trigger] total_records_key()[i] && total_records_key()[i] != 34
        && total_records_key()[i] != 92 by {}
    crate::codec::lemma_escape_plain(current_file_key());
    crate::codec::lemma_escape_plain(total_records_key());
    let single = o.subrange(0, 1);
    assert(single[0] == o[0]);
    assert(crate::codec::ser_entries(o) == crate::codec::ser_entries(single) + seq![44u8] + (
    seq![34u8] + crate::codec::escape(o[1].0) + seq![34u8, 58u8] + ser(o[1].1)));
    assert(crate::codec::ser_entries(single) == seq![34u8] + crate::codec::escape(single[0].0)
        + seq![34u8, 58u8] + ser(single[0].1));
    assert(ser(o[0].1) == crate::codec::dec_digits(m.current_file as int));
    assert(ser(o[1].1) == crate::codec::dec_digits(m.total_records as int));
    assert(ser(meta_model(m)) =~= seq![123u8, 34u8] + current_file_key() + seq![34u8, 58u8]
        + crate::codec::dec_digits(m.current_file as int) + seq![44u8, 34u8]
        + total_records_key() + seq![34u8, 58u8] + crate::codec::dec_digits(
        m.total_records as int,
    ) + seq![125u8]);
}

/// Where each part of a canonical metadata text stands.
proof fn lemma_meta_parts(m: TableMetadata, plain: Seq<u8>)
    requires
        plain == ser(meta_model(m)),
    ensures
        ({
            let d1 = crate::codec::dec_digits(m.current_file as int).len() as int;
            let d2 = crate::codec::dec_digits(m.total_records as int).len() as int;
            &&& plain.len() == 34 + d1 + d2
            &&& plain.subrange(0, 16) == seq![123u8, 34u8] + current_file_key() + seq![
                34u8,
                58u8,
            ]
            &&& crate::codec::digits_at(plain, 16, m.current_file as int)
            &&& plain.subrange(16 + d1, 33 + d1) == seq![44u8, 34u8] + total_records_key()
                + seq![34u8, 58u8]
            &&& crate::codec::digits_at(plain, 33 + d1, m.total_records as int)
            &&& plain[plain.len() - 1] == 125
        }),
{
    lemma_meta_text(m);
    crate::codec::lemma_dec_digits(m.current_file as int);
    crate::codec::lemma_dec_digits(m.total_records as int);
    let dig1 = crate::codec::dec_digits(m.current_file as int);
    let dig2 = crate::codec::dec_digits(m.total_records as int);
    let d1 = dig1.len() as int;
    let d2 = dig2.len() as int;
    assert(plain.len() == 34 + d1 + d2);
    assert(plain.subrange(0, 16) =~= seq![123u8, 34u8] + current_file_key() + seq![34u8, 58u8]);
    assert(plain.subrange(16, 16 + d1) =~= dig1);
    assert(plain[16 + d1] == 44);
    assert(crate::codec::digits_at(plain, 16, m.current_file as int));
    assert(plain.subrange(16 + d1, 33 + d1) =~= seq![44u8, 34u8] + total_records_key() + seq![
        34u8,
        58u8,
    ]);
    assert(plain.subrange(33 + d1, 33 + d1 + d2) =~= dig2);
    assert(plain[33 + d1 + d2] == 125);
    assert(crate::codec::digits_at(plain, 33 + d1, m.total_records as int));
}

impl TableMetadata {
    /// A table starts empty, writing to segment 0.
    pub fn new() -> (m: TableMetadata)
        ensures
            m.current_file == 0,
            m.total_records == 0,
    {
        TableMetadata { current_file: 0, total_records: 0 }
    }

    /// Metadata and count agree: the current segment is the one the last
    /// record went to, and 0 for an empty table.
    pub open spec fn consistent(self) -> bool {
        &&& self.total_records < MAX_TOTAL_RECORDS
        &&& (self.total_records == 0 ==> self.current_file == 0)
        &&& (self.total_records > 0 ==> self.current_file as u64 == (self.total_records - 1)
            as int / (RECORDS_PER_FILE as int))
    }

    /// The sealed form of this metadata.
    pub fn to_blob(&self, enc: &DataEncryption) -> (r: Result<Vec<u8>, ChainDBError>)
        requires
            enc.wf(),
            self.total_records < MAX_TOTAL_RECORDS,
        ensures
            r is Ok ==> aead_open(enc.key(), r.unwrap()@) == Some(ser(meta_model(*self))),
            r is Err ==> r->Err_0 is EncryptionError,
    {
        let doc = meta_to_json(self);
        let plain = to_bytes(&doc);
        enc.encrypt(&plain)
    }

    /// Reads sealed metadata back: success is exactly a blob that opens
    /// under the key to the canonical text of a consistent metadata
    /// document, and then the result is that document's metadata.
    pub fn from_blob(enc: &DataEncryption, blob: &Vec<u8>) -> (r: Result<TableMetadata, ChainDBError>)
        requires
            enc.wf(),
        ensures
            r is Ok ==> aead_open(enc.key(), blob@) == Some(ser(meta_model(r.unwrap()))),
            r is Ok ==> r.unwrap().consistent(),
            aead_open(enc.key(), blob@) is None ==> r is Err && r->Err_0 is DecryptionError,
            blob@.len() >= 12 ==> forall|m: TableMetadata|
                m.consistent() && aead_open(enc.key(), blob@) == Some(ser(meta_model(m)))
                    ==> r is Ok && r.unwrap() == m,
            r is Err ==> (r->Err_0 is DecryptionError || r->Err_0 is SerializationError),
    {
        let plain = match enc.decrypt(blob) {
            Ok(p) => p,
            Err(_) => {
                return Err(ChainDBError::DecryptionError("metadata cannot be read".to_owned()));
            },
        };
        // The fixed skeleton around the two digit runs.
        let mut lit1: Vec<u8> = Vec::new();
        lit1.push(123);
        lit1.push(34);
        crate::chaindb::append_bytes(&mut lit1, &current_file_key_bytes());
        lit1.push(34);
        lit1.push(58);
        proof {
            assert(lit1@ =~= seq![123u8, 34u8] + current_file_key() + seq![34u8, 58u8]);
        }
        let mut lit2: Vec<u8> = Vec::new();
        lit2.push(44);
        lit2.push(34);
        crate::chaindb::append_bytes(&mut lit2, &total_records_key_bytes());
        lit2.push(34);
        lit2.push(58);
        proof {
            assert(lit2@ =~= seq![44u8, 34u8] + total_records_key() + seq![34u8, 58u8]);
        }
        if !crate::codec::bytes_at(&plain, 0, &lit1) {
            proof {
                assert forall|m: TableMetadata| m.consistent() implies plain@ != ser(
                    meta_model(m),
                ) by {
                    if plain@ == ser(meta_model(m)) {
                        lemma_meta_parts(m, plain@);
                    }
                }
            }
            return Err(ChainDBError::SerializationError("metadata is malformed".to_owned()));
        }
        let (cf64, p1) = match crate::codec::read_uint_at(&plain, 16) {
            Some(p) => p,
            None => {
                proof {
                    assert forall|m: TableMetadata| m.consistent() implies plain@ != ser(
                        meta_model(m),
                    ) by {
                        if plain@ == ser(meta_model(m)) {
                            lemma_meta_parts(m, plain@);
                        }
                    }
                }
                return Err(ChainDBError::SerializationError("metadata is malformed".to_owned()));
            },
        };
        if cf64 > 0xffff_ffff {
            proof {
                assert forall|m: TableMetadata| m.consistent() implies plain@ != ser(
                    meta_model(m),
                ) by {
                    if plain@ == ser(meta_model(m)) {
                        lemma_meta_parts(m, plain@);
                    }
                }
            }
            return Err(ChainDBError::SerializationError("metadata is malformed".to_owned()));
        }
        if !crate::codec::bytes_at(&plain, p1, &lit2) {
            proof {
                assert forall|m: TableMetadata| m.consistent() implies plain@ != ser(
                    meta_model(m),
                ) by {
                    if plain@ == ser(meta_model(m)) {
                        lemma_meta_parts(m, plain@);
                    }
                }
            }
            return Err(ChainDBError::SerializationError("metadata is malformed".to_owned()));
        }
        let plain_len = plain.len();
        proof {
            assert(lit2@.len() == 17);
            assert(p1 + 17 <= plain_len);
        }
        let (tr, p3) = match crate::codec::read_uint_at(&plain, p1 + 17) {
            Some(p) => p,
            None => {
                proof {
                    assert forall|m: TableMetadata| m.consistent() implies plain@ != ser(
                        meta_model(m),
                    ) by {
                        if plain@ == ser(meta_model(m)) {
                            lemma_meta_parts(m, plain@);
                        }
                    }
                }
                return Err(ChainDBError::SerializationError("metadata is malformed".to_owned()));
            },
        };
        let end_ok = p3 < plain.len() && p3 + 1 == plain.len() && plain[p3] == 125;
        let meta = TableMetadata { current_file: cf64 as u32, total_records: tr };
        let shape_ok = end_ok && tr < MAX_TOTAL_RECORDS && (if tr == 0 {
            meta.current_file == 0
        } else {
            meta.current_file as u64 == (tr - 1) / RECORDS_PER_FILE
        });
        if !shape_ok {
            proof {
                assert forall|m: TableMetadata| m.consistent() implies plain@ != ser(
                    meta_model(m),
                ) by {
                    if plain@ == ser(meta_model(m)) {
                        lemma_meta_parts(m, plain@);
                    }
                }
            }
            return Err(ChainDBError::SerializationError("metadata is malformed".to_owned()));
        }
        // The text must be exactly what this metadata seals to, so that
        // the blob pins the result down.
        let expected = to_bytes(&meta_to_json(&meta));
        if !bytes_eq(&plain, &expected) {
            proof {
                assert forall|m: TableMetadata| m.consistent() implies plain@ != ser(
                    meta_model(m),
                ) by {
                    if plain@ == ser(meta_model(m)) {
                        lemma_meta_parts(m, plain@);
                        assert(meta == m);
                    }
                }
            }
            return Err(ChainDBError::SerializationError("metadata is malformed".to_owned()));
        }
        proof {
            assert forall|m: TableMetadata|
                m.consistent() && aead_open(enc.key(), blob@) == Some(ser(meta_model(m)))
                    implies meta == m by {
                lemma_meta_parts(m, plain@);
            }
        }
        Ok(meta)
    }
}

/// For every table and every write, the current segment is the count
/// divided by the capacity, rounding down — except in the just-rolled
/// state, a count exactly at a segment boundary, where the next write
/// first opens the next segment.
pub proof fn lemma_current_file_floor(m: TableMetadata)
    requires
        m.consistent(),
        m.total_records > 0,
    ensures
        m.total_records as int % (RECORDS_PER_FILE as int) != 0 ==> m.current_file as int
            == m.total_records as int / (RECORDS_PER_FILE as int),
        m.total_records as int % (RECORDS_PER_FILE as int) == 0 ==> m.current_file as int
            == m.total_records as int / (RECORDS_PER_FILE as int) - 1,
{
    let t = m.total_records as int;
    let k = RECORDS_PER_FILE as int;
    vstd::arithmetic::div_mod::lemma_fundamental_div_mod(t, k);
    vstd::arithmetic::div_mod::lemma_fundamental_div_mod(t - 1, k);
    vstd::arithmetic::div_mod::lemma_mod_bound(t, k);
    vstd::arithmetic::div_mod::lemma_mod_bound(t - 1, k);
    if t % k != 0 {
        assert((t - 1) / k == t / k) by (nonlinear_arith)
            requires
                t > 0,
                k == 1000,
                t == k * (t / k) + t % k,
                t - 1 == k * ((t - 1) / k) + (t - 1) % k,
                0 <= t % k < k,
                0 <= (t - 1) % k < k,
                t % k != 0,
        {}
    } else {
        assert((t - 1) / k == t / k - 1) by (nonlinear_arith)
            requires
                t > 0,
                k == 1000,
                t == k * (t / k) + t % k,
                t - 1 == k * ((t - 1) / k) + (t - 1) % k,
                0 <= t % k < k,
                0 <= (t - 1) % k < k,
                t % k == 0,
        {}
    }
}

/// One stored line seals one record: the line is base64 text of a blob
/// that opens under the key to the record's canonical bytes.
pub open spec fn line_seals(key: Seq<u8>, line: Seq<u8>, rec: Json) -> bool {
    &&& b64_decoded(line) is Some
    &&& aead_open(key, b64_decoded(line)->0) == Some(ser(rec))
}

/// A table held in memory: its metadata, the stored lines in append
/// order, and the records those lines seal.
pub struct Table {
    meta: TableMetadata,
    lines: Vec<Vec<u8>>,
    records: Vec<JsonValue>,
    enc: DataEncryption,
}

impl Table {
    /// The records, in append order.
    pub closed spec fn records_model(self) -> Seq<Json> {
        arr_model(self.records@)
    }

    /// The stored lines, in append order.
    pub closed spec fn lines_model(self) -> Seq<Seq<u8>> {
        Seq::new(self.lines@.len(), |i: int| self.lines@[i]@)
    }

    /// The key everything is sealed under.
    pub closed spec fn key(self) -> Seq<u8> {
        self.enc.key()
    }

    /// The table's metadata.
    pub closed spec fn metadata_spec(self) -> TableMetadata {
        self.meta
    }

    /// The store is sound: counts agree, and every line seals its record.
    pub closed spec fn wf(self) -> bool {
        &&& self.enc.wf()
        &&& self.meta.consistent()
        &&& self.records@.len() == self.meta.total_records
        &&& self.lines@.len() == self.records@.len()
        &&& forall|i: int| 0 <= i < self.records@.len()
            ==> line_seals(self.key(), self.lines_model()[i], self.records_model()[i])
    }

    /// The table's metadata.
    pub fn metadata(&self) -> (m: TableMetadata)
        ensures
            m == self.metadata_spec(),
    {
        self.meta
    }

    /// A sound table holds exactly as many records and stored lines as
    /// its metadata counts, and its metadata is consistent.
    pub proof fn lemma_wf_counts(self)
        requires
            self.wf(),
        ensures
            self.records_model().len() == self.metadata_spec().total_records,
            self.lines_model().len() == self.records_model().len(),
            self.metadata_spec().consistent(),
    {
        lemma_arr_model(self.records@);
    }

    /// A fresh, empty table under the given key.
    pub fn new(enc: DataEncryption) -> (t: Table)
        requires
            enc.wf(),
        ensures
            t.wf(),
            t.records_model() == Seq::<Json>::empty(),
            t.metadata_spec().total_records == 0,
            t.metadata_spec().current_file == 0,
            t.key() == enc.key(),
    {
        let t = Table {
            meta: TableMetadata::new(),
            lines: Vec::new(),
            records: Vec::new(),
            enc,
        };
        proof {
            assert(t.records_model() =~= Seq::<Json>::empty());
        }
        t
    }

    /// Rebuilds a table from its sealed lines, read in append order.
    /// Succeeds only when the count matches the metadata and every line
    /// decodes, opens under the key, and holds one canonical record.
    /// Each kind of failure names its cause: a count or decoding fault
    /// is a serialization error, a line that will not open under the
    /// key is a decryption error.
    pub fn load(enc: DataEncryption, meta: TableMetadata, all_lines: Vec<Vec<u8>>) -> (r: Result<
        Table,
        ChainDBError,
    >)
        requires
            enc.wf(),
        ensures
            r is Ok ==> {
                let t = r.unwrap();
                &&& t.wf()
                &&& t.metadata_spec() == meta
                &&& t.key() == enc.key()
                &&& t.lines_model() == Seq::new(all_lines@.len(), |i: int| all_lines@[i]@)
                &&& forall|i: int| 0 <= i < all_lines@.len()
                    ==> line_seals(enc.key(), all_lines@[i]@, t.records_model()[i])
            },
            !(meta.consistent() && all_lines@.len() == meta.total_records) ==> r is Err
                && r->Err_0 is SerializationError,
            (meta.consistent() && all_lines@.len() == meta.total_records && exists|i: int|
                0 <= i < all_lines@.len() && b64_decoded(#[trigger] all_lines@[i]@) is None)
                ==> r is Err && r->Err_0 is SerializationError,
            (meta.consistent() && all_lines@.len() == meta.total_records && (forall|i: int|
                0 <= i < all_lines@.len() ==> b64_decoded(#[trigger] all_lines@[i]@) is Some)
                && exists|i: int|
                0 <= i < all_lines@.len() && aead_open(
                    enc.key(),
                    b64_decoded(#[trigger] all_lines@[i]@)->0,
                ) is None) ==> r is Err && r->Err_0 is DecryptionError,
            r is Err ==> (r->Err_0 is DecryptionError || r->Err_0
                is SerializationError),
    {
        if !(meta.total_records < MAX_TOTAL_RECORDS) {
            return Err(ChainDBError::SerializationError("record count out of range".to_owned()));
        }
        if meta.total_records == 0 {
            if meta.current_file != 0 {
                return Err(ChainDBError::SerializationError("metadata is inconsistent".to_owned()));
            }
        } else {
            if meta.current_file as u64 != (meta.total_records - 1) / RECORDS_PER_FILE {
                return Err(ChainDBError::SerializationError("metadata is inconsistent".to_owned()));
            }
        }
        let n = all_lines.len();
        if n as u64 != meta.total_records {
            return Err(ChainDBError::SerializationError(
                "line count does not match metadata".to_owned(),
            ));
        }
        proof {
            assert(meta.consistent());
        }
        // First every line leaves its base64 coat.
        let mut sealed_all: Vec<Vec<u8>> = Vec::new();
        for i in 0..n
            invariant
                n == all_lines@.len(),
                meta.consistent(),
                n == meta.total_records,
                sealed_all@.len() == i,
                forall|j: int| 0 <= j < i ==> b64_decoded(#[trigger] all_lines@[j]@)
                    == Some(sealed_all@[j]@),
            decreases n - i,
        {
            let sealed = match b64_decode(&all_lines[i]) {
                Ok(s) => s,
                Err(_) => {
                    return Err(ChainDBError::SerializationError(
                        "a stored line is not base64".to_owned(),
                    ));
                },
            };
            sealed_all.push(sealed);
        }
        // Then every blob must open under the key.
        let mut plains: Vec<Vec<u8>> = Vec::new();
        for i in 0..n
            invariant
                n == all_lines@.len(),
                meta.consistent(),
                n == meta.total_records,
                enc.wf(),
                sealed_all@.len() == n,
                forall|j: int| 0 <= j < n ==> b64_decoded(#[trigger] all_lines@[j]@)
                    == Some(sealed_all@[j]@),
                plains@.len() == i,
                forall|j: int| 0 <= j < i ==> aead_open(enc.key(), sealed_all@[j]@)
                    == Some(#[trigger] plains@[j]@),
            decreases n - i,
        {
            let plain = match enc.decrypt(&sealed_all[i]) {
                Ok(p) => p,
                Err(e) => {
                    return Err(e);
                },
            };
            plains.push(plain);
        }
        // Last, every plaintext must hold one canonical record.
        let mut records: Vec<JsonValue> = Vec::new();
        proof {
            assert forall|i: int| 0 <= i < n implies aead_open(
                enc.key(),
                b64_decoded(#[trigger] all_lines@[i]@)->0,
            ) is Some by {
                assert(b64_decoded(all_lines@[i]@) == Some(sealed_all@[i]@));
                assert(aead_open(enc.key(), sealed_all@[i]@) == Some(plains@[i]@));
            }
        }
        for i in 0..n
            invariant
                n == all_lines@.len(),
                meta.consistent(),
                n == meta.total_records,
                sealed_all@.len() == n,
                plains@.len() == n,
                forall|j: int| 0 <= j < n ==> b64_decoded(#[trigger] all_lines@[j]@)
                    == Some(sealed_all@[j]@),
                forall|j: int| 0 <= j < n ==> aead_open(enc.key(), sealed_all@[j]@)
                    == Some(#[trigger] plains@[j]@),
                forall|j: int| 0 <= j < n ==> aead_open(
                    enc.key(),
                    b64_decoded(#[trigger] all_lines@[j]@)->0,
                ) is Some,
                records@.len() == i,
                forall|j: int| 0 <= j < i
                    ==> line_seals(enc.key(), all_lines@[j]@, arr_model(records@)[j]),
            decreases n - i,
        {
            let doc = match parse_json(&plains[i]) {
                Some(d) => d,
                None => {
                    return Err(ChainDBError::SerializationError(
                        "a stored record is malformed".to_owned(),
                    ));
                },
            };
            proof {
                lemma_arr_model_snoc(records@, doc);
                lemma_arr_model(records@);
            }
            records.push(doc);
            proof {
                lemma_arr_model(records@);
            }
        }
        let t = Table { meta, lines: all_lines, records, enc };
        proof {
            lemma_arr_model(t.records@);
            assert(t.lines_model() =~= Seq::new(t.lines@.len(), |i: int| t.lines@[i]@));
        }
        Ok(t)
    }

    /// Stores one record: the caller's document, stripped of any
    /// `doc_id` it tried to set, under a fresh identifier, appended as
    /// one sealed line. Gives the identifier back. On failure the table
    /// stands unchanged.
    pub fn persist(&mut self, record: &JsonValue) -> (r: Result<Vec<u8>, ChainDBError>)
        requires
            old(self).wf(),
            old(self).metadata_spec().total_records + 1 < MAX_TOTAL_RECORDS,
        ensures
            r is Ok ==> {
                let t = *final(self);
                let id = r.unwrap()@;
                &&& t.wf()
                &&& id.len() == 36
                &&& t.records_model() == old(self).records_model().push(
                    prepared(record.model(), id),
                )
                &&& t.metadata_spec().total_records == old(self).metadata_spec().total_records + 1
                &&& t.metadata_spec().current_file as u64 == old(
                    self,
                ).metadata_spec().total_records / RECORDS_PER_FILE
                &&& t.lines_model().len() == old(self).lines_model().len() + 1
                &&& forall|i: int| 0 <= i < old(self).lines_model().len()
                    ==> t.lines_model()[i] == old(self).lines_model()[i]
                &&& t.key() == old(self).key()
            },
            r is Err ==> *final(self) == *old(self) && r->Err_0 is EncryptionError,
    {
        let id = new_doc_id();
        let stored = prepare_record(record, &id);
        let plain = to_bytes(&stored);
        let sealed = match self.enc.encrypt(&plain) {
            Ok(s) => s,
            Err(e) => {
                return Err(e);
            },
        };
        let line = b64_encode(&sealed);
        let ghost old_lines = self.lines@;
        let ghost old_records = self.records@;
        proof {
            lemma_arr_model_snoc(self.records@, stored);
        }
        let cur64 = self.meta.total_records / RECORDS_PER_FILE;
        let cur = cur64 as u32;
        proof {
            assert(self.meta.total_records / RECORDS_PER_FILE <= 0xffff_ffff) by {
                assert(self.meta.total_records < MAX_TOTAL_RECORDS);
                assert(MAX_TOTAL_RECORDS == 4_294_967_296_000);
                vstd::arithmetic::div_mod::lemma_div_is_ordered(
                    self.meta.total_records as int,
                    (MAX_TOTAL_RECORDS - 1) as int,
                    RECORDS_PER_FILE as int,
                );
            }
        }
        self.lines.push(line);
        self.records.push(stored);
        self.meta.current_file = cur;
        self.meta.total_records = self.meta.total_records + 1;
        proof {
            assert(final(self).lines_model() =~= Seq::new(
                final(self).lines@.len(),
                |i: int| final(self).lines@[i]@,
            ));
            assert(forall|i: int| 0 <= i < old_lines.len()
                ==> final(self).lines_model()[i] == old(self).lines_model()[i]);
            lemma_arr_model(old_records);
            lemma_arr_model(final(self).records@);
        }
        Ok(id)
    }

    /// The record on the last stored line. An empty table has none.
    pub fn get_table(&self) -> (r: Result<JsonValue, ChainDBError>)
        requires
            self.wf(),
        ensures
            self.metadata_spec().total_records == 0 ==> r is Err && r->Err_0
                is SerializationError,
            self.metadata_spec().total_records > 0 ==> r is Ok && r.unwrap().model()
                == self.records_model().last(),
    {
        if self.records.len() == 0 {
            return Err(ChainDBError::SerializationError("no records found".to_owned()));
        }
        proof {
            lemma_arr_model(self.records@);
        }
        Ok(json_clone(&self.records[self.records.len() - 1]))
    }

    /// The record at a zero-based position in append order.
    pub fn get(&self, index: u64) -> (r: Result<JsonValue, ChainDBError>)
        requires
            self.wf(),
        ensures
            index < self.metadata_spec().total_records ==> r is Ok && r.unwrap().model()
                == self.records_model()[index as int],
            index >= self.metadata_spec().total_records ==> r is Err && r->Err_0
                is SerializationError,
    {
        if index >= self.records.len() as u64 {
            return Err(ChainDBError::SerializationError("record not found".to_owned()));
        }
        let idx = index as usize;
        proof {
            lemma_arr_model(self.records@);
            assert(idx < self.records@.len());
        }
        Ok(json_clone(&self.records[idx]))
    }

    /// Up to `limit` records, most recent first.
    pub fn get_history(&self, limit: usize) -> (r: Result<Vec<JsonValue>, ChainDBError>)
        requires
            self.wf(),
        ensures
            r is Ok,
            arr_model(r.unwrap()@) == self.records_model().reverse().take(
                vstd::math::min(limit as int, self.metadata_spec().total_records as int),
            ),
    {
        let total = self.records.len();
        let count = if limit < total {
            limit
        } else {
            total
        };
        let mut out: Vec<JsonValue> = Vec::new();
        proof {
            lemma_arr_model(self.records@);
            lemma_arr_model(out@);
        }
        for k in 0..count
            invariant
                total == self.records@.len(),
                count == vstd::math::min(limit as int, total as int),
                self.wf(),
                out@.len() == k,
                forall|j: int| 0 <= j < k
                    ==> arr_model(out@)[j] == self.records_model()[total - 1 - j],
            decreases count - k,
        {
            let ghost before = out@;
            let item = json_clone(&self.records[total - 1 - k]);
            proof {
                lemma_arr_model_snoc(before, item);
                lemma_arr_model(before);
                lemma_arr_model(self.records@);
            }
            out.push(item);
            proof {
                lemma_arr_model(out@);
            }
        }
        proof {
            lemma_arr_model(out@);
            lemma_arr_model(self.records@);
            assert(arr_model(out@) =~= self.records_model().reverse().take(
                vstd::math::min(limit as int, self.metadata_spec().total_records as int),
            ));
        }
        Ok(out)
    }

    /// The stored lines of one segment, oldest first: the slice of the
    /// log that belongs in `data_{file_index}.cdb`.
    pub fn segment_lines(&self, file_index: u32) -> (r: Vec<Vec<u8>>)
        requires
            self.wf(),
        ensures
            r@.len() == {
                let lo = file_index as int * RECORDS_PER_FILE;
                let total = self.metadata_spec().total_records as int;
                let hi = vstd::math::min(lo + RECORDS_PER_FILE, total);
                if lo < hi {
                    hi - lo
                } else {
                    0
                }
            },
            forall|j: int| 0 <= j < r@.len()
                ==> r@[j]@ == self.lines_model()[file_index as int * RECORDS_PER_FILE + j],
    {
        let lo64 = file_index as u64 * RECORDS_PER_FILE;
        let total = self.lines.len() as u64;
        let hi64 = if lo64 + RECORDS_PER_FILE < total {
            lo64 + RECORDS_PER_FILE
        } else {
            total
        };
        let mut out: Vec<Vec<u8>> = Vec::new();
        if lo64 >= hi64 {
            return out;
        }
        let lo = lo64 as usize;
        let hi = hi64 as usize;
        for i in lo..hi
            invariant
                lo == lo64,
                hi == hi64,
                lo64 == file_index as u64 * RECORDS_PER_FILE,
                hi64 == vstd::math::min(lo64 + RECORDS_PER_FILE, self.lines@.len() as int),
                hi <= self.lines@.len(),
                out@.len() == i - lo,
                forall|j: int| 0 <= j < out@.len()
                    ==> out@[j]@ == self.lines@[lo + j]@,
            decreases hi - i,
        {
            out.push(crate::json::copy_bytes(&self.lines[i]));
        }
        out
    }

    /// Whether any record carries `id`.
    pub open spec fn spec_has_record_with_id(self, id: Seq<u8>) -> bool {
        exists|i: int| 0 <= i < self.records_model().len() && has_doc_id(
            #[trigger] self.records_model()[i],
            id,
        )
    }

    /// Rewrites, in place, every record of one segment that carries
    /// `doc_id`, substituting the given record under that same
    /// identifier. The segment is the most recent one holding the
    /// identifier; no later segment holds it. Gives back the index of
    /// the rewritten segment. Everything else stands untouched, the
    /// metadata too.
    pub fn update(&mut self, record: &JsonValue, doc_id: &Vec<u8>) -> (r: Result<
        u32,
        ChainDBError,
    >)
        requires
            old(self).wf(),
        ensures
            (r is Err && r->Err_0 is RecordNotFound) <==> !old(self).spec_has_record_with_id(
                doc_id@,
            ),
            r is Err ==> *final(self) == *old(self) && (r->Err_0 is RecordNotFound || r->Err_0
                is EncryptionError),
            r is Ok ==> ({
                let t = *final(self);
                let old_recs = old(self).records_model();
                let total = old_recs.len() as int;
                let lo = r.unwrap() as int * RECORDS_PER_FILE;
                let hi = vstd::math::min(lo + RECORDS_PER_FILE, total);
                let fresh = prepared(record.model(), doc_id@);
                &&& t.wf()
                &&& t.key() == old(self).key()
                &&& t.metadata_spec() == old(self).metadata_spec()
                &&& t.records_model().len() == total
                &&& t.lines_model().len() == total
                &&& r.unwrap() <= old(self).metadata_spec().current_file
                &&& exists|i: int| lo <= i < hi && has_doc_id(#[trigger] old_recs[i], doc_id@)
                &&& forall|i: int| hi <= i < total ==> !has_doc_id(#[trigger] old_recs[i], doc_id@)
                &&& forall|i: int| lo <= i < hi && has_doc_id(#[trigger] old_recs[i], doc_id@)
                    ==> t.records_model()[i] == fresh
                &&& forall|i: int| lo <= i < hi && !has_doc_id(#[trigger] old_recs[i], doc_id@)
                    ==> t.records_model()[i] == old_recs[i] && t.lines_model()[i] == old(
                        self,
                    ).lines_model()[i]
                &&& forall|i: int| (0 <= i < lo || hi <= i < total)
                    ==> #[trigger] t.records_model()[i] == old_recs[i] && t.lines_model()[i]
                        == old(self).lines_model()[i]
            }),
    {
        proof {
            lemma_arr_model(self.records@);
        }
        let n = self.records.len();
        if n == 0 {
            assert(!old(self).spec_has_record_with_id(doc_id@));
            return Err(ChainDBError::RecordNotFound("no records exist in this table".to_owned()));
        }
        let doc_key = doc_id_key_bytes();
        // The most recent record carrying the identifier decides the
        // segment to rewrite.
        let mut mx: usize = 0;
        let mut any = false;
        for i in 0..n
            invariant
                n == self.records@.len(),
                self.wf(),
                *self == *old(self),
                doc_key@ == crate::record::doc_id_key(),
                any ==> mx < i && has_doc_id(old(self).records_model()[mx as int], doc_id@),
                any ==> forall|j: int| mx < j < i ==> !has_doc_id(
                    #[trigger] old(self).records_model()[j],
                    doc_id@,
                ),
                !any ==> forall|j: int| 0 <= j < i ==> !has_doc_id(
                    #[trigger] old(self).records_model()[j],
                    doc_id@,
                ),
            decreases n - i,
        {
            proof {
                lemma_arr_model(self.records@);
            }
            if record_has_id(&self.records[i], &doc_key, doc_id) {
                mx = i;
                any = true;
            }
        }
        if !any {
            assert(!old(self).spec_has_record_with_id(doc_id@));
            return Err(ChainDBError::RecordNotFound("record not found".to_owned()));
        }
        assert(old(self).spec_has_record_with_id(doc_id@));
        // The segment that holds position `mx`.
        let rpf = RECORDS_PER_FILE as usize;
        let lo = mx - (mx % rpf);
        let seg64 = (mx as u64) / RECORDS_PER_FILE;
        proof {
            vstd::arithmetic::div_mod::lemma_fundamental_div_mod(mx as int, rpf as int);
            assert(lo == seg64 * RECORDS_PER_FILE);
            assert(seg64 <= (n - 1) as u64 / RECORDS_PER_FILE) by {
                vstd::arithmetic::div_mod::lemma_div_is_ordered(
                    mx as int,
                    (n - 1) as int,
                    RECORDS_PER_FILE as int,
                );
            }
        }
        let seg = seg64 as u32;
        let hi = if n - lo > rpf {
            lo + rpf
        } else {
            n
        };
        proof {
            assert(mx < hi) by {
                vstd::arithmetic::div_mod::lemma_fundamental_div_mod(mx as int, rpf as int);
                assert(mx % rpf < rpf) by {
                    vstd::arithmetic::div_mod::lemma_mod_bound(mx as int, rpf as int);
                }
            }
        }
        // Build the whole log afresh: inside the chosen segment every
        // carrier of the identifier is sealed anew as the given record,
        // everything else is kept as it stands. A sealing failure
        // leaves the table untouched.
        let ghost fresh = prepared(record.model(), doc_id@);
        let mut new_lines: Vec<Vec<u8>> = Vec::new();
        let mut new_records: Vec<JsonValue> = Vec::new();
        for i in 0..n
            invariant
                n == self.records@.len(),
                self.wf(),
                *self == *old(self),
                old(self).spec_has_record_with_id(doc_id@),
                doc_key@ == crate::record::doc_id_key(),
                fresh == prepared(record.model(), doc_id@),
                lo <= mx < hi <= n,
                new_records@.len() == i,
                new_lines@.len() == i,
                forall|j: int| #![trigger arr_model(new_records@)[j]] 0 <= j < i
                    ==> if lo <= j < hi && has_doc_id(old(self).records_model()[j], doc_id@) {
                        arr_model(new_records@)[j] == fresh && line_seals(
                            self.key(),
                            new_lines@[j]@,
                            fresh,
                        )
                    } else {
                        arr_model(new_records@)[j] == old(self).records_model()[j]
                            && new_lines@[j]@ == old(self).lines_model()[j]
                    },
            decreases n - i,
        {
            proof {
                lemma_arr_model(self.records@);
                lemma_arr_model(new_records@);
            }
            let in_segment = lo <= i && i < hi;
            if in_segment && record_has_id(&self.records[i], &doc_key, doc_id) {
                let fresh_rec = prepare_record(record, doc_id);
                let plain = to_bytes(&fresh_rec);
                let sealed = match self.enc.encrypt(&plain) {
                    Ok(s) => s,
                    Err(e) => {
                        return Err(e);
                    },
                };
                let line = b64_encode(&sealed);
                proof {
                    lemma_arr_model_snoc(new_records@, fresh_rec);
                }
                new_lines.push(line);
                new_records.push(fresh_rec);
            } else {
                let line = crate::json::copy_bytes(&self.lines[i]);
                let rec = json_clone(&self.records[i]);
                proof {
                    lemma_arr_model_snoc(new_records@, rec);
                }
                new_lines.push(line);
                new_records.push(rec);
            }
            proof {
                lemma_arr_model(new_records@);
            }
        }
        self.lines = new_lines;
        self.records = new_records;
        proof {
            lemma_arr_model(self.records@);
            let t = *self;
            assert(t.lines_model() =~= Seq::new(t.lines@.len(), |i: int| t.lines@[i]@));
            assert(t.wf()) by {
                assert forall|i: int| 0 <= i < t.records@.len() implies line_seals(
                    t.key(),
                    t.lines_model()[i],
                    t.records_model()[i],
                ) by {
                    assert(arr_model(t.records@)[i] == t.records_model()[i]);
                }
            }
            assert(exists|i: int|
                lo <= i < hi && has_doc_id(#[trigger] old(self).records_model()[i], doc_id@)) by {
                assert(has_doc_id(old(self).records_model()[mx as int], doc_id@));
            }
        }
        Ok(seg)
    }
}

/// The records among `recs`, kept in order, whose projection satisfies
/// every equality pair.
pub open spec fn filter_pairs(recs: Seq<Json>, crit: Seq<(Seq<u8>, Json)>) -> Seq<Json>
    decreases recs,
{
    if recs.len() == 0 {
        Seq::empty()
    } else {
        filter_pairs(recs.subrange(0, recs.len() - 1), crit) + if matches_pairs(
            recs[recs.len() - 1],
            crit,
        ) {
            seq![recs[recs.len() - 1]]
        } else {
            Seq::empty()
        }
    }
}

/// The records among `recs`, kept in order, that satisfy every advanced
/// triple.
pub open spec fn filter_triples(recs: Seq<Json>, crit: Seq<(Seq<u8>, ComparisonOperator, Json)>) -> Seq<Json>
    decreases recs,
{
    if recs.len() == 0 {
        Seq::empty()
    } else {
        filter_triples(recs.subrange(0, recs.len() - 1), crit) + if matches_triples(
            recs[recs.len() - 1],
            crit,
        ) {
            seq![recs[recs.len() - 1]]
        } else {
            Seq::empty()
        }
    }
}

/// Filtering a concatenation filters each part.
pub proof fn lemma_filter_pairs_concat(s1: Seq<Json>, s2: Seq<Json>, crit: Seq<(Seq<u8>, Json)>)
    ensures
        filter_pairs(s1 + s2, crit) == filter_pairs(s1, crit) + filter_pairs(s2, crit),
    decreases s2.len(),
{
    if s2.len() == 0 {
        assert(s1 + s2 =~= s1);
        assert(filter_pairs(s1 + s2, crit) =~= filter_pairs(s1, crit) + filter_pairs(s2, crit));
    } else {
        let all = s1 + s2;
        assert(all.subrange(0, all.len() - 1) =~= s1 + s2.subrange(0, s2.len() - 1));
        assert(all[all.len() - 1] == s2[s2.len() - 1]);
        lemma_filter_pairs_concat(s1, s2.subrange(0, s2.len() - 1), crit);
        assert(filter_pairs(s1 + s2, crit) =~= filter_pairs(s1, crit) + filter_pairs(s2, crit));
    }
}

/// Filtering a concatenation filters each part.
pub proof fn lemma_filter_triples_concat(
    s1: Seq<Json>,
    s2: Seq<Json>,
    crit: Seq<(Seq<u8>, ComparisonOperator, Json)>,
)
    ensures
        filter_triples(s1 + s2, crit) == filter_triples(s1, crit) + filter_triples(s2, crit),
    decreases s2.len(),
{
    if s2.len() == 0 {
        assert(s1 + s2 =~= s1);
        assert(filter_triples(s1 + s2, crit) =~= filter_triples(s1, crit) + filter_triples(
            s2,
            crit,
        ));
    } else {
        let all = s1 + s2;
        assert(all.subrange(0, all.len() - 1) =~= s1 + s2.subrange(0, s2.len() - 1));
        assert(all[all.len() - 1] == s2[s2.len() - 1]);
        lemma_filter_triples_concat(s1, s2.subrange(0, s2.len() - 1), crit);
        assert(filter_triples(s1 + s2, crit) =~= filter_triples(s1, crit) + filter_triples(
            s2,
            crit,
        ));
    }
}

impl Table {
    /// The records whose projection satisfies every `(field, value)`
    /// pair, walked most-recent first when `reverse` holds, cut off
    /// after `limit` finds.
    pub fn find_where(
        &self,
        criteria: &Vec<(Vec<u8>, JsonValue)>,
        limit: Option<usize>,
        reverse: bool,
    ) -> (r: Result<Vec<JsonValue>, ChainDBError>)
        requires
            self.wf(),
        ensures
            r is Ok,
            ({
                let base = if reverse {
                    self.records_model().reverse()
                } else {
                    self.records_model()
                };
                let f = filter_pairs(base, crate::json::obj_model(criteria@));
                let cap = match limit {
                    Option::Some(l) => l as int,
                    Option::None => f.len() as int,
                };
                arr_model(r.unwrap()@) == f.take(vstd::math::min(cap, f.len() as int))
            }),
    {
        let n = self.records.len();
        let ghost base = if reverse {
            self.records_model().reverse()
        } else {
            self.records_model()
        };
        let ghost cm = crate::json::obj_model(criteria@);
        let (has_limit, max) = match limit {
            Some(l) => (true, l),
            None => (false, 0usize),
        };
        let mut out: Vec<JsonValue> = Vec::new();
        let mut i: usize = 0;
        proof {
            lemma_arr_model(self.records@);
            lemma_arr_model(out@);
            assert(base.take(0) =~= Seq::<Json>::empty());
        }
        while i < n && (!has_limit || out.len() < max)
            invariant
                n == self.records@.len(),
                self.wf(),
                i <= n,
                base == if reverse {
                    self.records_model().reverse()
                } else {
                    self.records_model()
                },
                base.len() == n,
                cm == crate::json::obj_model(criteria@),
                arr_model(out@) == filter_pairs(base.take(i as int), cm),
                out@.len() == filter_pairs(base.take(i as int), cm).len(),
                has_limit ==> out@.len() <= max,
            decreases n - i,
        {
            proof {
                lemma_arr_model(self.records@);
                lemma_arr_model(out@);
            }
            let idx = if reverse {
                n - 1 - i
            } else {
                i
            };
            proof {
                assert(base[i as int] == self.records_model()[idx as int]);
            }
            let hit = matches_criteria(&self.records[idx], criteria);
            proof {
                let pre = base.take(i as int);
                let cur = base.take(i + 1);
                assert(cur.subrange(0, cur.len() - 1) =~= pre);
                assert(cur[cur.len() - 1] == base[i as int]);
            }
            if hit {
                let item = json_clone(&self.records[idx]);
                proof {
                    lemma_arr_model_snoc(out@, item);
                    assert(arr_model(out@).push(item.model()) =~= filter_pairs(
                        base.take(i + 1),
                        cm,
                    ));
                }
                out.push(item);
            } else {
                proof {
                    assert(arr_model(out@) =~= filter_pairs(base.take(i + 1), cm));
                }
            }
            i = i + 1;
        }
        proof {
            lemma_arr_model(out@);
            let f = filter_pairs(base, cm);
            assert(base.take(i as int) + base.subrange(i as int, n as int) =~= base);
            lemma_filter_pairs_concat(base.take(i as int), base.subrange(i as int, n as int), cm);
            if i == n {
                assert(base.take(n as int) =~= base);
                assert(arr_model(out@) =~= f.take(vstd::math::min(
                    match limit {
                        Option::Some(l) => l as int,
                        Option::None => f.len() as int,
                    },
                    f.len() as int,
                )));
            } else {
                assert(has_limit && out@.len() == max);
                assert(f.take(max as int) =~= filter_pairs(base.take(i as int), cm));
                assert(arr_model(out@) =~= f.take(vstd::math::min(max as int, f.len() as int)));
            }
        }
        Ok(out)
    }

    /// The records that satisfy every `(field, operator, value)` triple,
    /// walked most-recent first when `reverse` holds, cut off after
    /// `limit` finds.
    pub fn find_where_advanced(
        &self,
        criteria: &Vec<(Vec<u8>, ComparisonOperator, JsonValue)>,
        limit: Option<usize>,
        reverse: bool,
    ) -> (r: Result<Vec<JsonValue>, ChainDBError>)
        requires
            self.wf(),
        ensures
            r is Ok,
            ({
                let base = if reverse {
                    self.records_model().reverse()
                } else {
                    self.records_model()
                };
                let f = filter_triples(base, triples_model(criteria@));
                let cap = match limit {
                    Option::Some(l) => l as int,
                    Option::None => f.len() as int,
                };
                arr_model(r.unwrap()@) == f.take(vstd::math::min(cap, f.len() as int))
            }),
    {
        let n = self.records.len();
        let ghost base = if reverse {
            self.records_model().reverse()
        } else {
            self.records_model()
        };
        let ghost cm = triples_model(criteria@);
        let (has_limit, max) = match limit {
            Some(l) => (true, l),
            None => (false, 0usize),
        };
        let mut out: Vec<JsonValue> = Vec::new();
        let mut i: usize = 0;
        proof {
            lemma_arr_model(self.records@);
            lemma_arr_model(out@);
            assert(base.take(0) =~= Seq::<Json>::empty());
        }
        while i < n && (!has_limit || out.len() < max)
            invariant
                n == self.records@.len(),
                self.wf(),
                i <= n,
                base == if reverse {
                    self.records_model().reverse()
                } else {
                    self.records_model()
                },
                base.len() == n,
                cm == triples_model(criteria@),
                arr_model(out@) == filter_triples(base.take(i as int), cm),
                out@.len() == filter_triples(base.take(i as int), cm).len(),
                has_limit ==> out@.len() <= max,
            decreases n - i,
        {
            proof {
                lemma_arr_model(self.records@);
                lemma_arr_model(out@);
            }
            let idx = if reverse {
                n - 1 - i
            } else {
                i
            };
            proof {
                assert(base[i as int] == self.records_model()[idx as int]);
            }
            let hit = matches_criteria_advanced(&self.records[idx], criteria);
            proof {
                let pre = base.take(i as int);
                let cur = base.take(i + 1);
                assert(cur.subrange(0, cur.len() - 1) =~= pre);
                assert(cur[cur.len() - 1] == base[i as int]);
            }
            if hit {
                let item = json_clone(&self.records[idx]);
                proof {
                    lemma_arr_model_snoc(out@, item);
                    assert(arr_model(out@).push(item.model()) =~= filter_triples(
                        base.take(i + 1),
                        cm,
                    ));
                }
                out.push(item);
            } else {
                proof {
                    assert(arr_model(out@) =~= filter_triples(base.take(i + 1), cm));
                }
            }
            i = i + 1;
        }
        proof {
            lemma_arr_model(out@);
            let f = filter_triples(base, cm);
            assert(base.take(i as int) + base.subrange(i as int, n as int) =~= base);
            lemma_filter_triples_concat(base.take(i as int), base.subrange(i as int, n as int), cm);
            if i == n {
                assert(base.take(n as int) =~= base);
                assert(arr_model(out@) =~= f.take(vstd::math::min(
                    match limit {
                        Option::Some(l) => l as int,
                        Option::None => f.len() as int,
                    },
                    f.len() as int,
                )));
            } else {
                assert(has_limit && out@.len() == max);
                assert(f.take(max as int) =~= filter_triples(base.take(i as int), cm));
                assert(arr_model(out@) =~= f.take(vstd::math::min(max as int, f.len() as int)));
            }
        }
        Ok(out)
    }
}

/// Whether a record carries `id` under the reserved key.
fn record_has_id(rec: &JsonValue, doc_key: &Vec<u8>, id: &Vec<u8>) -> (r: bool)
    requires
        doc_key@ == crate::record::doc_id_key(),
    ensures
        r == has_doc_id(rec.model(), id@),
{
    match obj_get(rec, doc_key) {
        Some(JsonValue::Str(s)) => bytes_eq(s, id),
        Some(_) => false,
        None => false,
    }
}

} // verus!
