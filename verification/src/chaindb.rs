//! The database controller: credentials, the sealed configuration, and
//! the re-encryption steps of a password change.
//!
//! A database directory holds one sealed configuration blob naming the
//! database, its user and its password; every table under it is sealed
//! under the key derived from that password.

use vstd::prelude::*;

use crate::b64::{b64_decode, b64_decoded, b64_encode};
use crate::codec::{ser, to_bytes};
use crate::crypto::{aead_open, derived_key, key_of, DataEncryption};
use crate::errors::ChainDBError;
use crate::json::{bytes_eq, lemma_model_obj, Json, JsonValue};
use vstd::utf8::encode_utf8;

verus! {

broadcast use vstd::std_specs::vec::group_vec_axioms;

/// A database's credentials, as given by its owner.
#[derive(Debug, Clone)]
pub struct Config {
    pub name: String,
    pub user: String,
    pub password: String,
}

impl Config {
    /// Credentials from their parts.
    pub fn new(name: &str, user: &str, password: &str) -> (r: Config)
        ensures
            r.name@ == name@,
            r.user@ == user@,
            r.password@ == password@,
    {
        Config { name: name.to_owned(), user: user.to_owned(), password: password.to_owned() }
    }
}

/// The key `name`.
pub open spec fn name_key() -> Seq<u8> {
    seq![110u8, 97u8, 109u8, 101u8]
}

/// The key `user`.
pub open spec fn user_key() -> Seq<u8> {
    seq![117u8, 115u8, 101u8, 114u8]
}

/// The key `password`.
pub open spec fn password_key() -> Seq<u8> {
    seq![112u8, 97u8, 115u8, 115u8, 119u8, 111u8, 114u8, 100u8]
}

/// The configuration document for credentials given as byte strings.
pub open spec fn config_doc(name: Seq<u8>, user: Seq<u8>, password: Seq<u8>) -> Json {
    Json::Obj(
        seq![
            (name_key(), Json::Str(name)),
            (user_key(), Json::Str(user)),
            (password_key(), Json::Str(password)),
        ],
    )
}

/// The key `name` as a byte string.
fn name_key_bytes() -> (r: Vec<u8>)
    ensures
        r@ == name_key(),
{
    let mut k: Vec<u8> = Vec::new();
    k.push(110);
    k.push(97);
    k.push(109);
    k.push(101);
    proof {
        assert(k@ =~= name_key());
    }
    k
}

/// The key `user` as a byte string.
fn user_key_bytes() -> (r: Vec<u8>)
    ensures
        r@ == user_key(),
{
    let mut k: Vec<u8> = Vec::new();
    k.push(117);
    k.push(115);
    k.push(101);
    k.push(114);
    proof {
        assert(k@ =~= user_key());
    }
    k
}

/// The key `password` as a byte string.
fn password_key_bytes() -> (r: Vec<u8>)
    ensures
        r@ == password_key(),
{
    let mut k: Vec<u8> = Vec::new();
    k.push(112);
    k.push(97);
    k.push(115);
    k.push(115);
    k.push(119);
    k.push(111);
    k.push(114);
    k.push(100);
    proof {
        assert(k@ =~= password_key());
    }
    k
}

/// The configuration document, executable, from credential bytes.
fn config_to_json(name: &Vec<u8>, user: &Vec<u8>, password: &Vec<u8>) -> (r: JsonValue)
    ensures
        r.model() == config_doc(name@, user@, password@),
{
    let mut entries: Vec<(Vec<u8>, JsonValue)> = Vec::new();
    entries.push((name_key_bytes(), JsonValue::Str(crate::json::copy_bytes(name))));
    entries.push((user_key_bytes(), JsonValue::Str(crate::json::copy_bytes(user))));
    entries.push((password_key_bytes(), JsonValue::Str(crate::json::copy_bytes(password))));
    let r = JsonValue::Obj(entries);
    proof {
        lemma_model_obj(r);
        assert(r.model()->Obj_0 =~= config_doc(name@, user@, password@)->Obj_0);
    }
    r
}

/// What stands before the name's escaped bytes in a configuration text.
pub open spec fn config_lit_a() -> Seq<u8> {
    seq![123u8, 34u8] + name_key() + seq![34u8, 58u8, 34u8]
}

/// What stands between the name's and the user's escaped bytes.
pub open spec fn config_lit_b() -> Seq<u8> {
    seq![44u8, 34u8] + user_key() + seq![34u8, 58u8, 34u8]
}

/// What stands between the user's and the password's escaped bytes.
pub open spec fn config_lit_c() -> Seq<u8> {
    seq![44u8, 34u8] + password_key() + seq![34u8, 58u8, 34u8]
}

/// The canonical text of a configuration, laid out around its three
/// escaped fields.
#[verifier::rlimit(100)]
proof fn lemma_config_text(n: Seq<u8>, u: Seq<u8>, p: Seq<u8>)
    ensures
        ser(config_doc(n, u, p)) == config_lit_a() + crate::codec::escape(n) + seq![34u8]
            + config_lit_b() + crate::codec::escape(u) + seq![34u8] + config_lit_c()
            + crate::codec::escape(p) + seq![34u8, 125u8],
{
    let o = config_doc(n, u, p)->Obj_0;
    assert forall|i: int| 0 <= i < name_key().len() implies 32 <= #[trigger] name_key()[i]
        && name_key()[i] != 34 && name_key()[i] != 92 by {}
    assert forall|i: int| 0 <= i < user_key().len() implies 32 <= #[trigger] user_key()[i]
        && user_key()[i] != 34 && user_key()[i] != 92 by {}
    assert forall|i: int| 0 <= i < password_key().len() implies 32
        <= #[trigger] password_key()[i] && password_key()[i] != 34 && password_key()[i]
        != 92 by {}
    crate::codec::lemma_escape_plain(name_key());
    crate::codec::lemma_escape_plain(user_key());
    crate::codec::lemma_escape_plain(password_key());
    let two = o.subrange(0, 2);
    let one = o.subrange(0, 1);
    assert(two.subrange(0, 1) =~= one);
    assert(one[0] == o[0] && two[1] == o[1]);
    assert(crate::codec::ser_entries(o) == crate::codec::ser_entries(two) + seq![44u8] + (
    seq![34u8] + crate::codec::escape(o[2].0) + seq![34u8, 58u8] + ser(o[2].1)));
    assert(crate::codec::ser_entries(two) == crate::codec::ser_entries(one) + seq![44u8] + (
    seq![34u8] + crate::codec::escape(two[1].0) + seq![34u8, 58u8] + ser(two[1].1)));
    assert(crate::codec::ser_entries(one) == seq![34u8] + crate::codec::escape(one[0].0) + seq![
        34u8,
        58u8,
    ] + ser(one[0].1));
    assert(ser(config_doc(n, u, p)) =~= config_lit_a() + crate::codec::escape(n) + seq![34u8]
        + config_lit_b() + crate::codec::escape(u) + seq![34u8] + config_lit_c()
        + crate::codec::escape(p) + seq![34u8, 125u8]);
}

/// A configuration text names its fields: two configurations with the
/// same canonical text carry the same name, user and password.
#[verifier::rlimit(100)]
pub proof fn lemma_config_inj(
    n1: Seq<u8>,
    u1: Seq<u8>,
    p1: Seq<u8>,
    n2: Seq<u8>,
    u2: Seq<u8>,
    p2: Seq<u8>,
)
    requires
        ser(config_doc(n1, u1, p1)) == ser(config_doc(n2, u2, p2)),
    ensures
        n1 == n2 && u1 == u2 && p1 == p2,
{
    lemma_config_text(n1, u1, p1);
    lemma_config_text(n2, u2, p2);
    let t = ser(config_doc(n1, u1, p1));
    let r1 = config_lit_b() + crate::codec::escape(u1) + seq![34u8] + config_lit_c()
        + crate::codec::escape(p1) + seq![34u8, 125u8];
    let r2 = config_lit_b() + crate::codec::escape(u2) + seq![34u8] + config_lit_c()
        + crate::codec::escape(p2) + seq![34u8, 125u8];
    assert(t.subrange(9, t.len() as int) =~= crate::codec::escape(n1) + seq![34u8] + r1);
    assert(t.subrange(9, t.len() as int) =~= crate::codec::escape(n2) + seq![34u8] + r2);
    crate::codec::lemma_unquote_escape(n1, r1);
    crate::codec::lemma_unquote_escape(n2, r2);
    assert(n1 == n2 && r1 == r2);
    let s1 = config_lit_c() + crate::codec::escape(p1) + seq![34u8, 125u8];
    let s2 = config_lit_c() + crate::codec::escape(p2) + seq![34u8, 125u8];
    assert(r1.subrange(9, r1.len() as int) =~= crate::codec::escape(u1) + seq![34u8] + s1);
    assert(r2.subrange(9, r2.len() as int) =~= crate::codec::escape(u2) + seq![34u8] + s2);
    crate::codec::lemma_unquote_escape(u1, s1);
    crate::codec::lemma_unquote_escape(u2, s2);
    assert(u1 == u2 && s1 == s2);
    assert(s1.subrange(13, s1.len() as int) =~= crate::codec::escape(p1) + seq![34u8] + seq![
        125u8,
    ]);
    assert(s2.subrange(13, s2.len() as int) =~= crate::codec::escape(p2) + seq![34u8] + seq![
        125u8,
    ]);
    crate::codec::lemma_unquote_escape(p1, seq![125u8]);
    crate::codec::lemma_unquote_escape(p2, seq![125u8]);
    assert(p1 == p2);
}

/// Reads the three fields out of a configuration text. Complete on
/// canonical texts: where the bytes are the canonical text of some
/// configuration, exactly its fields come back.
#[verifier::rlimit(100)]
fn read_config_fields(plain: &Vec<u8>) -> (r: Option<(Vec<u8>, Vec<u8>, Vec<u8>)>)
    ensures
        forall|a: Seq<u8>, b: Seq<u8>, c: Seq<u8>|
            plain@ == ser(#[trigger] config_doc(a, b, c))
                ==> (r matches Some(f) && f.0@ == a && f.1@ == b && f.2@ == c),
{
    let mut lit_a: Vec<u8> = Vec::new();
    lit_a.push(123);
    lit_a.push(34);
    append_bytes(&mut lit_a, &name_key_bytes());
    lit_a.push(34);
    lit_a.push(58);
    lit_a.push(34);
    proof {
        assert(lit_a@ =~= config_lit_a());
    }
    let mut lit_b: Vec<u8> = Vec::new();
    lit_b.push(44);
    lit_b.push(34);
    append_bytes(&mut lit_b, &user_key_bytes());
    lit_b.push(34);
    lit_b.push(58);
    lit_b.push(34);
    proof {
        assert(lit_b@ =~= config_lit_b());
    }
    let mut lit_c: Vec<u8> = Vec::new();
    lit_c.push(44);
    lit_c.push(34);
    append_bytes(&mut lit_c, &password_key_bytes());
    lit_c.push(34);
    lit_c.push(58);
    lit_c.push(34);
    proof {
        assert(lit_c@ =~= config_lit_c());
    }
    let plain_len = plain.len();
    if !crate::codec::bytes_at(plain, 0, &lit_a) {
        proof {
            lemma_config_reader_contra(plain@);
        }
        return None;
    }
    let (f1, q1) = match crate::codec::take_quoted(plain, 9) {
        Some(q) => q,
        None => {
            proof {
                lemma_config_reader_contra(plain@);
            }
            return None;
        },
    };
    if !crate::codec::bytes_at(plain, q1, &lit_b) {
        proof {
            lemma_config_reader_contra(plain@);
            assert forall|a: Seq<u8>, b: Seq<u8>, c: Seq<u8>|
                plain@ != ser(#[trigger] config_doc(a, b, c)) by {
                if plain@ == ser(config_doc(a, b, c)) {
                    let r1 = config_lit_b() + crate::codec::escape(b) + seq![34u8]
                        + config_lit_c() + crate::codec::escape(c) + seq![34u8, 125u8];
                    assert(r1 == plain@.subrange(q1 as int, plain@.len() as int));
                    assert(q1 + 9 <= plain@.len());
                    assert(plain@.subrange(q1 as int, q1 + 9) =~= config_lit_b());
                }
            }
        }
        return None;
    }
    proof {
        assert(lit_b@.len() == 9);
        assert(q1 + 9 <= plain_len);
    }
    let (f2, q2) = match crate::codec::take_quoted(plain, q1 + 9) {
        Some(q) => q,
        None => {
            proof {
                lemma_config_reader_contra(plain@);
                assert forall|a: Seq<u8>, b: Seq<u8>, c: Seq<u8>|
                    plain@ != ser(#[trigger] config_doc(a, b, c)) by {
                    if plain@ == ser(config_doc(a, b, c)) {
                        let ea = crate::codec::escape(a);
                        let r1 = config_lit_b() + crate::codec::escape(b) + seq![34u8]
                            + config_lit_c() + crate::codec::escape(c) + seq![34u8, 125u8];
                        let s1 = config_lit_c() + crate::codec::escape(c) + seq![34u8, 125u8];
                        assert(r1 == plain@.subrange(q1 as int, plain@.len() as int));
                        assert(r1.len() == plain@.len() - q1);
                        assert(q1 as int == 9 + ea.len() as int + 1);
                        assert(crate::codec::unquote(
                            plain@.subrange(q1 + 9, plain@.len() as int),
                        ) == Option::Some((b, s1)));
                    }
                }
            }
            return None;
        },
    };
    if !crate::codec::bytes_at(plain, q2, &lit_c) {
        proof {
            lemma_config_reader_contra(plain@);
            assert forall|a: Seq<u8>, b: Seq<u8>, c: Seq<u8>|
                plain@ != ser(#[trigger] config_doc(a, b, c)) by {
                if plain@ == ser(config_doc(a, b, c)) {
                    let ea = crate::codec::escape(a);
                    let eb = crate::codec::escape(b);
                    let r1 = config_lit_b() + eb + seq![34u8] + config_lit_c()
                        + crate::codec::escape(c) + seq![34u8, 125u8];
                    let s1 = config_lit_c() + crate::codec::escape(c) + seq![34u8, 125u8];
                    assert(r1 == plain@.subrange(q1 as int, plain@.len() as int));
                    assert(q1 as int == 9 + ea.len() as int + 1);
                    assert(crate::codec::unquote(plain@.subrange(q1 + 9, plain@.len() as int))
                        == Option::Some((b, s1)));
                    assert(s1 == plain@.subrange(q2 as int, plain@.len() as int));
                    assert(s1.len() == plain@.len() - q2);
                    assert(q2 + 13 <= plain@.len());
                    assert(plain@.subrange(q2 as int, q2 + 13) =~= config_lit_c());
                }
            }
        }
        return None;
    }
    proof {
        assert(lit_c@.len() == 13);
        assert(q2 + 13 <= plain_len);
    }
    let (f3, q3) = match crate::codec::take_quoted(plain, q2 + 13) {
        Some(q) => q,
        None => {
            proof {
                lemma_config_reader_contra(plain@);
                assert forall|a: Seq<u8>, b: Seq<u8>, c: Seq<u8>|
                    plain@ != ser(#[trigger] config_doc(a, b, c)) by {
                    if plain@ == ser(config_doc(a, b, c)) {
                        let ea = crate::codec::escape(a);
                        let eb = crate::codec::escape(b);
                        let r1 = config_lit_b() + eb + seq![34u8] + config_lit_c()
                            + crate::codec::escape(c) + seq![34u8, 125u8];
                        let s1 = config_lit_c() + crate::codec::escape(c) + seq![34u8, 125u8];
                        assert(r1 == plain@.subrange(q1 as int, plain@.len() as int));
                        assert(q1 as int == 9 + ea.len() as int + 1);
                        assert(crate::codec::unquote(
                            plain@.subrange(q1 + 9, plain@.len() as int),
                        ) == Option::Some((b, s1)));
                        assert(s1 == plain@.subrange(q2 as int, plain@.len() as int));
                        assert(s1.len() == plain@.len() - q2);
                        assert(q2 as int == q1 + 9 + eb.len() as int + 1);
                        assert(crate::codec::unquote(
                            plain@.subrange(q2 + 13, plain@.len() as int),
                        ) == Option::Some((c, seq![125u8])));
                    }
                }
            }
            return None;
        },
    };
    if !(q3 < plain_len && q3 + 1 == plain_len && plain[q3] == 125) {
        proof {
            lemma_config_reader_contra(plain@);
            assert forall|a: Seq<u8>, b: Seq<u8>, c: Seq<u8>|
                plain@ != ser(#[trigger] config_doc(a, b, c)) by {
                if plain@ == ser(config_doc(a, b, c)) {
                    let ea = crate::codec::escape(a);
                    let eb = crate::codec::escape(b);
                    let r1 = config_lit_b() + eb + seq![34u8] + config_lit_c()
                        + crate::codec::escape(c) + seq![34u8, 125u8];
                    let s1 = config_lit_c() + crate::codec::escape(c) + seq![34u8, 125u8];
                    assert(r1 == plain@.subrange(q1 as int, plain@.len() as int));
                    assert(q1 as int == 9 + ea.len() as int + 1);
                    assert(crate::codec::unquote(plain@.subrange(q1 + 9, plain@.len() as int))
                        == Option::Some((b, s1)));
                    assert(s1 == plain@.subrange(q2 as int, plain@.len() as int));
                    assert(s1.len() == plain@.len() - q2);
                    assert(q2 as int == q1 + 9 + eb.len() as int + 1);
                    assert(crate::codec::unquote(plain@.subrange(q2 + 13, plain@.len() as int))
                        == Option::Some((c, seq![125u8])));
                    assert(seq![125u8] == plain@.subrange(q3 as int, plain@.len() as int));
                    assert(q3 + 1 == plain@.len());
                    assert(plain@[q3 as int] == 125);
                }
            }
        }
        return None;
    }
    proof {
        assert forall|a: Seq<u8>, b: Seq<u8>, c: Seq<u8>|
            plain@ == ser(#[trigger] config_doc(a, b, c)) implies f1@ == a && f2@ == b && f3@
            == c by {
            lemma_config_reader_contra(plain@);
            let ea = crate::codec::escape(a);
            let eb = crate::codec::escape(b);
            let r1 = config_lit_b() + eb + seq![34u8] + config_lit_c() + crate::codec::escape(c)
                + seq![34u8, 125u8];
            let s1 = config_lit_c() + crate::codec::escape(c) + seq![34u8, 125u8];
            assert(r1 == plain@.subrange(q1 as int, plain@.len() as int));
            assert(q1 as int == 9 + ea.len() as int + 1);
            assert(crate::codec::unquote(plain@.subrange(q1 + 9, plain@.len() as int))
                == Option::Some((b, s1)));
            assert(s1 == plain@.subrange(q2 as int, plain@.len() as int));
            assert(s1.len() == plain@.len() - q2);
            assert(q2 as int == q1 + 9 + eb.len() as int + 1);
            assert(crate::codec::unquote(plain@.subrange(q2 + 13, plain@.len() as int))
                == Option::Some((c, seq![125u8])));
        }
    }
    Some((f1, f2, f3))
}

/// The parts a canonical configuration text must show its reader.
#[verifier::rlimit(100)]
proof fn lemma_config_reader_contra(plain: Seq<u8>)
    ensures
        forall|a: Seq<u8>, b: Seq<u8>, c: Seq<u8>| #[trigger]
            ser(config_doc(a, b, c)) == plain ==> ({
                let ea = crate::codec::escape(a);
                let eb = crate::codec::escape(b);
                let ec = crate::codec::escape(c);
                let r1 = config_lit_b() + eb + seq![34u8] + config_lit_c() + ec + seq![
                    34u8,
                    125u8,
                ];
                let q1 = 9 + ea.len() as int + 1;
                let s1 = config_lit_c() + ec + seq![34u8, 125u8];
                let q2 = q1 + 9 + eb.len() as int + 1;
                &&& plain.len() == 9 + ea.len() + 1 + 9 + eb.len() + 1 + 13 + ec.len() + 2
                &&& plain.subrange(0, 9) == config_lit_a()
                &&& crate::codec::unquote(plain.subrange(9, plain.len() as int))
                    == Option::Some((a, r1))
                &&& plain.subrange(q1 as int, q1 + 9) == config_lit_b()
                &&& crate::codec::unquote(plain.subrange(q1 + 9, plain.len() as int))
                    == Option::Some((b, s1))
                &&& plain.subrange(q2 as int, q2 + 13) == config_lit_c()
                &&& crate::codec::unquote(plain.subrange(q2 + 13, plain.len() as int))
                    == Option::Some((c, seq![125u8]))
                &&& plain[plain.len() - 1] == 125
            }),
{
    assert forall|a: Seq<u8>, b: Seq<u8>, c: Seq<u8>| #[trigger]
        ser(config_doc(a, b, c)) == plain implies ({
        let ea = crate::codec::escape(a);
        let eb = crate::codec::escape(b);
        let ec = crate::codec::escape(c);
        let r1 = config_lit_b() + eb + seq![34u8] + config_lit_c() + ec + seq![34u8, 125u8];
        let q1 = 9 + ea.len() as int + 1;
        let s1 = config_lit_c() + ec + seq![34u8, 125u8];
        let q2 = q1 + 9 + eb.len() as int + 1;
        &&& plain.len() == 9 + ea.len() + 1 + 9 + eb.len() + 1 + 13 + ec.len() + 2
        &&& plain.subrange(0, 9) == config_lit_a()
        &&& crate::codec::unquote(plain.subrange(9, plain.len() as int)) == Option::Some(
            (a, r1),
        )
        &&& plain.subrange(q1 as int, q1 + 9) == config_lit_b()
        &&& crate::codec::unquote(plain.subrange(q1 + 9, plain.len() as int)) == Option::Some(
            (b, s1),
        )
        &&& plain.subrange(q2 as int, q2 + 13) == config_lit_c()
        &&& crate::codec::unquote(plain.subrange(q2 + 13, plain.len() as int))
            == Option::Some((c, seq![125u8]))
        &&& plain[plain.len() - 1] == 125
    }) by {
        lemma_config_text(a, b, c);
        let ea = crate::codec::escape(a);
        let eb = crate::codec::escape(b);
        let ec = crate::codec::escape(c);
        let r1 = config_lit_b() + eb + seq![34u8] + config_lit_c() + ec + seq![34u8, 125u8];
        let q1 = 9 + ea.len() as int + 1;
        let s1 = config_lit_c() + ec + seq![34u8, 125u8];
        let q2 = q1 + 9 + eb.len() as int + 1;
        assert(plain.subrange(0, 9) =~= config_lit_a());
        assert(plain.subrange(9, plain.len() as int) =~= ea + seq![34u8] + r1);
        crate::codec::lemma_unquote_escape(a, r1);
        assert(plain.subrange(q1 as int, q1 + 9) =~= config_lit_b());
        assert(plain.subrange(q1 + 9, plain.len() as int) =~= eb + seq![34u8] + s1);
        crate::codec::lemma_unquote_escape(b, s1);
        assert(plain.subrange(q2 as int, q2 + 13) =~= config_lit_c());
        assert(plain.subrange(q2 + 13, plain.len() as int) =~= ec + seq![34u8] + seq![125u8]);
        crate::codec::lemma_unquote_escape(c, seq![125u8]);
    }
}

/// An open handle on a database: its credentials and its key.
pub struct ChainDB {
    name: Vec<u8>,
    user: Vec<u8>,
    password: Vec<u8>,
    enc: DataEncryption,
}

/// A successful connection: the handle and the caller's session token.
pub struct ConnectionInfo {
    pub db: ChainDB,
    pub auth_token: Vec<u8>,
}

impl ChainDB {
    /// The database name, as bytes.
    pub closed spec fn name_bytes(self) -> Seq<u8> {
        self.name@
    }

    /// The user, as bytes.
    pub closed spec fn user_bytes(self) -> Seq<u8> {
        self.user@
    }

    /// The password, as bytes.
    pub closed spec fn password_bytes(self) -> Seq<u8> {
        self.password@
    }

    /// The master key in force.
    pub closed spec fn key(self) -> Seq<u8> {
        self.enc.key()
    }

    /// The key is the digest of the password in force.
    pub closed spec fn wf(self) -> bool {
        &&& self.enc.wf()
        &&& self.enc.key() == key_of(self.password@)
    }

    /// The sealed configuration this handle's database carries.
    pub open spec fn config_blob_opens(self, blob: Seq<u8>) -> bool {
        aead_open(self.key(), blob) == Some(
            ser(config_doc(self.name_bytes(), self.user_bytes(), self.password_bytes())),
        )
    }

    /// A cipher holding this database's key.
    pub fn encryption(&self) -> (r: DataEncryption)
        requires
            self.wf(),
        ensures
            r.wf(),
            r.key() == self.key(),
    {
        self.enc.duplicate()
    }

    /// A new database: the handle and the sealed configuration blob that
    /// belongs at its root.
    pub fn create_database(name: &str, user: &str, password: &str) -> (r: Result<
        (ChainDB, Vec<u8>),
        ChainDBError,
    >)
        ensures
            r is Ok ==> ({
                let (db, blob) = r.unwrap();
                &&& db.wf()
                &&& db.name_bytes() == encode_utf8(name@)
                &&& db.user_bytes() == encode_utf8(user@)
                &&& db.password_bytes() == encode_utf8(password@)
                &&& aead_open(derived_key(password@), blob@) == Some(
                    ser(
                        config_doc(
                            encode_utf8(name@),
                            encode_utf8(user@),
                            encode_utf8(password@),
                        ),
                    ),
                )
            }),
            r is Err ==> r->Err_0 is EncryptionError,
    {
        let name_b = vstd::slice::slice_to_vec(name.as_bytes());
        let user_b = vstd::slice::slice_to_vec(user.as_bytes());
        let pass_b = vstd::slice::slice_to_vec(password.as_bytes());
        let enc = DataEncryption::new(password);
        let doc = config_to_json(&name_b, &user_b, &pass_b);
        let plain = to_bytes(&doc);
        let blob = match enc.encrypt(&plain) {
            Ok(b) => b,
            Err(e) => {
                return Err(e);
            },
        };
        Ok((ChainDB { name: name_b, user: user_b, password: pass_b, enc }, blob))
    }

    /// Opens a database from its sealed configuration. Success is exactly
    /// this: the blob opens under the key derived from the given password
    /// to the configuration naming these three credentials; any mismatch
    /// in a field is a credential failure.
    pub fn connect(name: &str, user: &str, password: &str, config_blob: &Vec<u8>) -> (r: Result<
        ConnectionInfo,
        ChainDBError,
    >)
        ensures
            config_blob@.len() >= 12 ==> ((r is Ok) <==> aead_open(
                derived_key(password@),
                config_blob@,
            ) == Some(
                ser(config_doc(encode_utf8(name@), encode_utf8(user@), encode_utf8(password@))),
            )),
            r is Ok ==> ({
                let conn = r.unwrap();
                &&& conn.db.wf()
                &&& conn.db.name_bytes() == encode_utf8(name@)
                &&& conn.db.user_bytes() == encode_utf8(user@)
                &&& conn.db.password_bytes() == encode_utf8(password@)
                &&& aead_open(derived_key(password@), config_blob@) == Some(
                    ser(
                        config_doc(
                            encode_utf8(name@),
                            encode_utf8(user@),
                            encode_utf8(password@),
                        ),
                    ),
                )
                &&& b64_decoded(conn.auth_token@) == Some(
                    encode_utf8(name@) + seq![58u8] + encode_utf8(user@) + seq![58u8]
                        + encode_utf8(password@),
                )
            }),
            (config_blob@.len() < 12 || aead_open(derived_key(password@), config_blob@) is None)
                ==> r is Err && r->Err_0 is DecryptionError,
            config_blob@.len() >= 12 ==> forall|n2: Seq<u8>, u2: Seq<u8>, p2: Seq<u8>|
                aead_open(derived_key(password@), config_blob@) == Some(
                    ser(#[trigger] config_doc(n2, u2, p2)),
                ) && !(n2 == encode_utf8(name@) && u2 == encode_utf8(user@) && p2 == encode_utf8(
                    password@,
                )) ==> r is Err && r->Err_0 is InvalidCredentials,
            r is Err ==> (r->Err_0 is DecryptionError || r->Err_0 is SerializationError
                || r->Err_0 is InvalidCredentials),
    {
        let enc = DataEncryption::new(password);
        let plain = match enc.decrypt(config_blob) {
            Ok(p) => p,
            Err(e) => {
                return Err(e);
            },
        };
        let name_b = vstd::slice::slice_to_vec(name.as_bytes());
        let user_b = vstd::slice::slice_to_vec(user.as_bytes());
        let pass_b = vstd::slice::slice_to_vec(password.as_bytes());
        // The one text a matching configuration can be: its canonical
        // sealed form. An exact match decides success.
        let expected = to_bytes(&config_to_json(&name_b, &user_b, &pass_b));
        if !bytes_eq(&plain, &expected) {
            // Not this configuration. Read what stands there to tell a
            // credential mismatch from a malformed blob.
            match read_config_fields(&plain) {
                Some((n2, u2, p2)) => {
                    if bytes_eq(&n2, &name_b) && bytes_eq(&u2, &user_b) && bytes_eq(
                        &p2,
                        &pass_b,
                    ) {
                        // The fields agree yet the text is not the
                        // canonical form: not a configuration this
                        // store wrote.
                        return Err(ChainDBError::SerializationError(
                            "configuration is malformed".to_owned(),
                        ));
                    }
                    return Err(ChainDBError::InvalidCredentials(
                        "invalid credentials".to_owned(),
                    ));
                },
                None => {
                    return Err(ChainDBError::SerializationError(
                        "configuration is malformed".to_owned(),
                    ));
                },
            }
        }
        proof {
            assert forall|n2: Seq<u8>, u2: Seq<u8>, p2: Seq<u8>|
                plain@ == ser(#[trigger] config_doc(n2, u2, p2)) implies n2 == name_b@ && u2
                == user_b@ && p2 == pass_b@ by {
                lemma_config_inj(n2, u2, p2, name_b@, user_b@, pass_b@);
            }
        }
        // The session token: base64 of `name:user:password`.
        let mut token_plain: Vec<u8> = Vec::new();
        append_bytes(&mut token_plain, &name_b);
        token_plain.push(58);
        append_bytes(&mut token_plain, &user_b);
        token_plain.push(58);
        append_bytes(&mut token_plain, &pass_b);
        proof {
            assert(token_plain@ =~= name_b@ + seq![58u8] + user_b@ + seq![58u8] + pass_b@);
        }
        let auth_token = b64_encode(&token_plain);
        Ok(
            ConnectionInfo {
                db: ChainDB { name: name_b, user: user_b, password: pass_b, enc },
                auth_token,
            },
        )
    }

    /// Checks that a new password differs from the one in force; sameness
    /// is the validation failure the password change begins with.
    pub fn check_new_password(&self, new_password: &str) -> (r: Result<(), ChainDBError>)
        ensures
            r is Ok <==> encode_utf8(new_password@) != self.password_bytes(),
            r is Err ==> r->Err_0 is ValidationError,
    {
        let new_b = vstd::slice::slice_to_vec(new_password.as_bytes());
        if bytes_eq(&new_b, &self.password) {
            Err(
                ChainDBError::ValidationError(
                    "new password is the same as the current password".to_owned(),
                ),
            )
        } else {
            Ok(())
        }
    }

    /// The configuration blob the database carries after adopting a new
    /// password: the same name and user, sealed under the new key.
    pub fn reencrypted_config(&self, new_password: &str) -> (r: Result<Vec<u8>, ChainDBError>)
        requires
            self.wf(),
        ensures
            r is Ok ==> aead_open(derived_key(new_password@), r.unwrap()@) == Some(
                ser(
                    config_doc(
                        self.name_bytes(),
                        self.user_bytes(),
                        encode_utf8(new_password@),
                    ),
                ),
            ),
            r is Err ==> r->Err_0 is EncryptionError,
    {
        let new_b = vstd::slice::slice_to_vec(new_password.as_bytes());
        let new_enc = DataEncryption::new(new_password);
        let doc = config_to_json(&self.name, &self.user, &new_b);
        let plain = to_bytes(&doc);
        new_enc.encrypt(&plain)
    }

    /// Adopts a new password after the swap: the handle's key and
    /// credentials follow it.
    pub fn adopt_password(&mut self, new_password: &str)
        requires
            old(self).wf(),
        ensures
            final(self).wf(),
            final(self).name_bytes() == old(self).name_bytes(),
            final(self).user_bytes() == old(self).user_bytes(),
            final(self).password_bytes() == encode_utf8(new_password@),
            final(self).key() == derived_key(new_password@),
    {
        self.password = vstd::slice::slice_to_vec(new_password.as_bytes());
        self.enc = DataEncryption::new(new_password);
    }
}

/// Appends one byte string to another.
pub fn append_bytes(out: &mut Vec<u8>, tail: &Vec<u8>)
    ensures
        final(out)@ == old(out)@ + tail@,
{
    let n = tail.len();
    for i in 0..n
        invariant
            n == tail@.len(),
            out@ == old(out)@ + tail@.subrange(0, i as int),
        decreases n - i,
    {
        out.push(tail[i]);
        proof {
            assert(out@ =~= old(out)@ + tail@.subrange(0, i + 1));
        }
    }
    proof {
        assert(tail@.subrange(0, tail@.len() as int) =~= tail@);
    }
}

/// One stored line re-sealed under a new key: what it held under the old
/// key, it holds under the new.
pub fn reencrypt_line(old_enc: &DataEncryption, new_enc: &DataEncryption, line: &Vec<u8>) -> (r:
    Result<Vec<u8>, ChainDBError>)
    requires
        old_enc.wf(),
        new_enc.wf(),
    ensures
        r is Ok ==> ({
            let opened = aead_open(old_enc.key(), b64_decoded(line@)->0);
            &&& b64_decoded(line@) is Some
            &&& opened is Some
            &&& b64_decoded(r.unwrap()@) is Some
            &&& aead_open(new_enc.key(), b64_decoded(r.unwrap()@)->0) == opened
        }),
        b64_decoded(line@) is None ==> r is Err && r->Err_0 is SerializationError,
        b64_decoded(line@) is Some && aead_open(old_enc.key(), b64_decoded(line@)->0) is None
            ==> r is Err && r->Err_0 is DecryptionError,
        r is Err ==> (r->Err_0 is SerializationError || r->Err_0 is DecryptionError || r->Err_0
            is EncryptionError),
    {
    let sealed = match b64_decode(line) {
        Ok(s) => s,
        Err(_) => {
            return Err(ChainDBError::SerializationError("a stored line is not base64".to_owned()));
        },
    };
    let plain = match old_enc.decrypt(&sealed) {
        Ok(p) => p,
        Err(e) => {
            return Err(e);
        },
    };
    let resealed = match new_enc.encrypt(&plain) {
        Ok(s) => s,
        Err(e) => {
            return Err(e);
        },
    };
    Ok(b64_encode(&resealed))
}

/// A whole segment's lines re-sealed under a new key, line for line.
pub fn reencrypt_lines(old_enc: &DataEncryption, new_enc: &DataEncryption, lines: &Vec<Vec<u8>>) -> (r:
    Result<Vec<Vec<u8>>, ChainDBError>)
    requires
        old_enc.wf(),
        new_enc.wf(),
    ensures
        r is Ok ==> ({
            let out = r.unwrap();
            &&& out@.len() == lines@.len()
            &&& forall|i: int| 0 <= i < lines@.len() ==> ({
                let opened = aead_open(old_enc.key(), b64_decoded(#[trigger] lines@[i]@)->0);
                &&& b64_decoded(lines@[i]@) is Some
                &&& opened is Some
                &&& b64_decoded(out@[i]@) is Some
                &&& aead_open(new_enc.key(), b64_decoded(out@[i]@)->0) == opened
            })
        }),
        r is Err ==> (r->Err_0 is SerializationError || r->Err_0 is DecryptionError || r->Err_0
            is EncryptionError),
{
    let n = lines.len();
    let mut out: Vec<Vec<u8>> = Vec::new();
    for i in 0..n
        invariant
            n == lines@.len(),
            old_enc.wf(),
            new_enc.wf(),
            out@.len() == i,
            forall|j: int| 0 <= j < i ==> ({
                let opened = aead_open(old_enc.key(), b64_decoded(#[trigger] lines@[j]@)->0);
                &&& b64_decoded(lines@[j]@) is Some
                &&& opened is Some
                &&& b64_decoded(out@[j]@) is Some
                &&& aead_open(new_enc.key(), b64_decoded(out@[j]@)->0) == opened
            }),
        decreases n - i,
    {
        let line = match reencrypt_line(old_enc, new_enc, &lines[i]) {
            Ok(l) => l,
            Err(e) => {
                return Err(e);
            },
        };
        out.push(line);
    }
    Ok(out)
}

/// A sealed blob re-sealed under a new key: what it held under the old
/// key, it holds under the new.
pub fn reencrypt_blob(old_enc: &DataEncryption, new_enc: &DataEncryption, blob: &Vec<u8>) -> (r:
    Result<Vec<u8>, ChainDBError>)
    requires
        old_enc.wf(),
        new_enc.wf(),
    ensures
        r is Ok ==> aead_open(old_enc.key(), blob@) is Some && aead_open(
            new_enc.key(),
            r.unwrap()@,
        ) == aead_open(old_enc.key(), blob@),
        aead_open(old_enc.key(), blob@) is None ==> r is Err && r->Err_0 is DecryptionError,
        r is Err ==> (r->Err_0 is DecryptionError || r->Err_0 is EncryptionError),
{
    let plain = match old_enc.decrypt(blob) {
        Ok(p) => p,
        Err(e) => {
            return Err(e);
        },
    };
    new_enc.encrypt(&plain)
}

/// The names among directory entries that are marked as carrying a
/// metadata file, kept in order.
pub open spec fn selected_names(entries: Seq<(String, bool)>) -> Seq<Seq<char>>
    decreases entries,
{
    if entries.len() == 0 {
        Seq::empty()
    } else {
        selected_names(entries.subrange(0, entries.len() - 1)) + if entries[entries.len()
            - 1].1 {
            seq![entries[entries.len() - 1].0@]
        } else {
            Seq::empty()
        }
    }
}

/// The table names among directory entries: those marked as carrying a
/// metadata file.
pub fn select_tables(entries: Vec<(String, bool)>) -> (r: Vec<String>)
    ensures
        Seq::new(r@.len(), |i: int| r@[i]@) == selected_names(entries@),
{
    let n = entries.len();
    let mut out: Vec<String> = Vec::new();
    proof {
        assert(entries@.subrange(0, 0) =~= Seq::<(String, bool)>::empty());
        assert(Seq::new(out@.len(), |i: int| out@[i]@) =~= selected_names(entries@.subrange(0, 0)));
    }
    for k in 0..n
        invariant
            n == entries@.len(),
            Seq::new(out@.len(), |i: int| out@[i]@) == selected_names(entries@.subrange(0, k as int)),
        decreases n - k,
    {
        proof {
            let pre = entries@.subrange(0, k as int);
            let cur = entries@.subrange(0, k + 1);
            assert(cur.subrange(0, cur.len() - 1) =~= pre);
            assert(cur[cur.len() - 1] == entries@[k as int]);
        }
        if entries[k].1 {
            let name = entries[k].0.clone();
            out.push(name);
        }
        proof {
            assert(Seq::new(out@.len(), |i: int| out@[i]@) =~= selected_names(
                entries@.subrange(0, k + 1),
            ));
        }
    }
    proof {
        assert(entries@.subrange(0, entries@.len() as int) =~= entries@);
    }
    out
}

/// Key rotation preserves the whole history: when every re-sealed line
/// opens under the new key to the same bytes its original opened to
/// under the old key, any records the two logs seal read back with
/// byte-for-byte the same plaintext, position for position — in
/// particular in most-recent-first order.
pub proof fn lemma_rekey_preserves_history(
    old_key: Seq<u8>,
    new_key: Seq<u8>,
    old_lines: Seq<Seq<u8>>,
    new_lines: Seq<Seq<u8>>,
    old_recs: Seq<Json>,
    new_recs: Seq<Json>,
)
    requires
        old_lines.len() == new_lines.len(),
        old_recs.len() == old_lines.len(),
        new_recs.len() == new_lines.len(),
        forall|i: int| 0 <= i < old_lines.len() ==> crate::table::line_seals(
            old_key,
            #[trigger] old_lines[i],
            old_recs[i],
        ),
        forall|i: int| 0 <= i < new_lines.len() ==> crate::table::line_seals(
            new_key,
            #[trigger] new_lines[i],
            new_recs[i],
        ),
        forall|i: int| 0 <= i < new_lines.len() ==> aead_open(
            new_key,
            b64_decoded(#[trigger] new_lines[i])->0,
        ) == aead_open(old_key, b64_decoded(old_lines[i])->0),
    ensures
        forall|i: int| 0 <= i < old_recs.len() ==> ser(#[trigger] new_recs[i]) == ser(
            old_recs[i],
        ),
        forall|i: int| 0 <= i < old_recs.len() ==> ser(#[trigger] new_recs.reverse()[i]) == ser(
            old_recs.reverse()[i],
        ),
{
    assert forall|i: int| 0 <= i < old_recs.len() implies ser(#[trigger] new_recs[i]) == ser(
        old_recs[i],
    ) by {
        lemma_rekey_preserves_records(
            old_key,
            new_key,
            old_lines[i],
            new_lines[i],
            old_recs[i],
            new_recs[i],
        );
    }
}

/// After a key rotation, every stored line holds the same plaintext
/// record under the new key that it held under the old one: two lines
/// sealing records under the two keys, with the same opened bytes, seal
/// records whose canonical text is byte-for-byte the same.
pub proof fn lemma_rekey_preserves_records(
    old_key: Seq<u8>,
    new_key: Seq<u8>,
    old_line: Seq<u8>,
    new_line: Seq<u8>,
    old_rec: Json,
    new_rec: Json,
)
    requires
        crate::table::line_seals(old_key, old_line, old_rec),
        crate::table::line_seals(new_key, new_line, new_rec),
        aead_open(new_key, b64_decoded(new_line)->0) == aead_open(old_key, b64_decoded(old_line)->0),
    ensures
        ser(new_rec) == ser(old_rec),
{
}

} // verus!
