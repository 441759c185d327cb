//! The service surface's data shapes: request bodies, the response
//! envelope, authentication parts, and the CORS policy as data.

use vstd::prelude::*;

use crate::json::{
    json_clone, json_field, lemma_model_obj, lemma_obj_model, obj_get, obj_model, Json, JsonValue,
};
use crate::record::{doc_id_key, doc_id_key_bytes, drop_key};

verus! {

broadcast use vstd::std_specs::vec::group_vec_axioms;

/// The credentials carried by a `Basic` authorization header:
/// `database:username:password`.
#[derive(Debug, Clone)]
pub struct DatabaseAuth {
    pub db_name: String,
    pub username: String,
    pub password: String,
}

/// An authentication failure and what to tell the caller.
#[derive(Debug)]
pub struct AuthError {
    pub message: String,
}

/// The answer to a request that carried no right to ask.
pub struct UnauthorizedError;

/// The standing unauthorized answer.
pub fn unauthorized() -> UnauthorizedError {
    UnauthorizedError
}

/// The permissive cross-origin policy the service answers with.
pub struct CORS;

impl CORS {
    /// The header pairs the policy adds to every response.
    pub fn headers() -> (r: Vec<(String, String)>)
        ensures
            r@.len() == 5,
    {
        let mut out: Vec<(String, String)> = Vec::new();
        out.push(("Access-Control-Allow-Origin".to_owned(), "*".to_owned()));
        out.push((
            "Access-Control-Allow-Methods".to_owned(),
            "POST, GET, PATCH, PUT, DELETE, OPTIONS".to_owned(),
        ));
        out.push((
            "Access-Control-Allow-Headers".to_owned(),
            "Content-Type, Authorization, Accept, X-Requested-With, Origin".to_owned(),
        ));
        out.push(("Access-Control-Allow-Credentials".to_owned(), "true".to_owned()));
        out.push(("Access-Control-Max-Age".to_owned(), "86400".to_owned()));
        out
    }
}

/// Whether a byte string carries exactly two colons: the shape
/// `database:username:password` splits on.
pub open spec fn two_colon_form(bytes: Seq<u8>) -> bool {
    exists|i: int, j: int|
        0 <= i < j < bytes.len() && #[trigger] bytes[i] == 58 && #[trigger] bytes[j] == 58
            && forall|k: int| 0 <= k < bytes.len() && k != i && k != j ==> bytes[k] != 58
}

/// Splits decoded `Basic` credentials on the two colons:
/// `database:username:password`, each part free of colons. Exactly the
/// byte strings of that shape split.
pub fn split_credentials(bytes: &Vec<u8>) -> (r: Option<(Vec<u8>, Vec<u8>, Vec<u8>)>)
    ensures
        r is Some ==> ({
            let (db, user, pass) = r.unwrap();
            &&& bytes@ == db@ + seq![58u8] + user@ + seq![58u8] + pass@
            &&& forall|i: int| 0 <= i < db@.len() ==> db@[i] != 58
            &&& forall|i: int| 0 <= i < user@.len() ==> user@[i] != 58
            &&& forall|i: int| 0 <= i < pass@.len() ==> pass@[i] != 58
        }),
        r is None ==> !two_colon_form(bytes@),
{
    let n = bytes.len();
    let mut first: Option<usize> = None;
    let mut second: Option<usize> = None;
    for i in 0..n
        invariant
            n == bytes@.len(),
            match first {
                Option::Some(f) => f < i && bytes@[f as int] == 58 && forall|j: int|
                    0 <= j < f ==> bytes@[j] != 58,
                Option::None => forall|j: int| 0 <= j < i ==> bytes@[j] != 58,
            },
            match second {
                Option::Some(s) => first is Some && (first->0 as int) < s < i && bytes@[s as int]
                    == 58 && forall|j: int| first->0 < j < s ==> bytes@[j] != 58,
                Option::None => first is Some ==> forall|j: int|
                    first->0 < j < i ==> bytes@[j] != 58,
            },
            second is Some ==> forall|j: int| second->0 < j < i ==> bytes@[j] != 58,
        decreases n - i,
    {
        if bytes[i] == 58 {
            match first {
                None => {
                    first = Some(i);
                },
                Some(_) => match second {
                    None => {
                        second = Some(i);
                    },
                    Some(_) => {
                        // A third colon: no two-colon split exists.
                        proof {
                            let f = first->0 as int;
                            let s = second->0 as int;
                            assert(!two_colon_form(bytes@)) by {
                                if two_colon_form(bytes@) {
                                    let (i0, j0) = choose|i0: int, j0: int|
                                        0 <= i0 < j0 < bytes@.len() && #[trigger] bytes@[i0] == 58
                                            && #[trigger] bytes@[j0] == 58 && forall|k: int|
                                            0 <= k < bytes@.len() && k != i0 && k != j0
                                                ==> bytes@[k] != 58;
                                    if f != i0 && f != j0 {
                                        assert(bytes@[f] != 58);
                                    } else if s != i0 && s != j0 {
                                        assert(bytes@[s] != 58);
                                    } else {
                                        assert(i != i0 && i != j0);
                                        assert(bytes@[i as int] != 58);
                                    }
                                }
                            }
                        }
                        return None;
                    },
                },
            }
        }
    }
    let f = match first {
        Some(f) => f,
        None => {
            // No colon at all.
            proof {
                assert(!two_colon_form(bytes@)) by {
                    if two_colon_form(bytes@) {
                        let (i0, j0) = choose|i0: int, j0: int|
                            0 <= i0 < j0 < bytes@.len() && #[trigger] bytes@[i0] == 58
                                && #[trigger] bytes@[j0] == 58 && forall|k: int|
                                0 <= k < bytes@.len() && k != i0 && k != j0 ==> bytes@[k] != 58;
                        assert(bytes@[i0] != 58);
                    }
                }
            }
            return None;
        },
    };
    let s = match second {
        Some(s) => s,
        None => {
            // One colon only.
            proof {
                assert(!two_colon_form(bytes@)) by {
                    if two_colon_form(bytes@) {
                        let (i0, j0) = choose|i0: int, j0: int|
                            0 <= i0 < j0 < bytes@.len() && #[trigger] bytes@[i0] == 58
                                && #[trigger] bytes@[j0] == 58 && forall|k: int|
                                0 <= k < bytes@.len() && k != i0 && k != j0 ==> bytes@[k] != 58;
                        if i0 != f as int {
                            assert(bytes@[i0] != 58);
                        } else {
                            assert(j0 != f as int);
                            assert(bytes@[j0] != 58);
                        }
                    }
                }
            }
            return None;
        },
    };
    let mut db: Vec<u8> = Vec::new();
    let mut user: Vec<u8> = Vec::new();
    let mut pass: Vec<u8> = Vec::new();
    for i in 0..f
        invariant
            f < n,
            n == bytes@.len(),
            db@ == bytes@.subrange(0, i as int),
        decreases f - i,
    {
        db.push(bytes[i]);
        proof {
            assert(db@ =~= bytes@.subrange(0, i + 1));
        }
    }
    let mut i = f + 1;
    while i < s
        invariant
            f < s < n,
            n == bytes@.len(),
            f + 1 <= i <= s,
            user@ == bytes@.subrange(f + 1, i as int),
        decreases s - i,
    {
        user.push(bytes[i]);
        proof {
            assert(user@ =~= bytes@.subrange(f + 1, i + 1));
        }
        i = i + 1;
    }
    let mut i = s + 1;
    while i < n
        invariant
            f < s < n,
            n == bytes@.len(),
            s + 1 <= i <= n,
            pass@ == bytes@.subrange(s + 1, i as int),
        decreases n - i,
    {
        pass.push(bytes[i]);
        proof {
            assert(pass@ =~= bytes@.subrange(s + 1, i + 1));
        }
        i = i + 1;
    }
    proof {
        assert(bytes@ =~= bytes@.subrange(0, f as int) + seq![bytes@[f as int]] + bytes@.subrange(
            f + 1,
            s as int,
        ) + seq![bytes@[s as int]] + bytes@.subrange(s + 1, n as int));
    }
    Some((db, user, pass))
}

/// The envelope every response travels in.
#[derive(Debug)]
pub struct ApiResponse<T> {
    pub success: bool,
    pub message: Option<String>,
    pub data: Option<T>,
}

impl<T> ApiResponse<T> {
    /// A successful answer carrying its payload.
    pub fn success(data: T) -> (r: Self)
        ensures
            r.success == true,
            r.message is None,
            r.data == Some(data),
    {
        ApiResponse { success: true, message: None, data: Some(data) }
    }

    /// A failed answer carrying only a message.
    pub fn error(message: &str) -> (r: Self)
        ensures
            r.success == false,
            r.message matches Some(m) && m@ == message@,
            r.data is None,
    {
        ApiResponse { success: false, message: Some(message.to_owned()), data: None }
    }
}

/// The body that creates a database.
#[derive(Debug)]
pub struct CreateDatabaseRequest {
    pub name: String,
    pub user: String,
    pub password: String,
}

/// The body that opens a connection.
#[derive(Debug)]
pub struct ConnectDatabaseRequest {
    pub name: String,
    pub user: String,
    pub password: String,
}

/// The body that changes a password.
#[derive(Debug)]
pub struct ChangePasswordRequest {
    pub name: String,
    pub user: String,
    pub old_password: String,
    pub new_password: String,
}

/// The body that stores a record.
pub struct PersistTableRequest {
    pub data: JsonValue,
}

/// The body that rewrites a record in place.
pub struct UpdateTableRequest {
    pub data: JsonValue,
    pub doc_id: Vec<u8>,
}

/// The query string of a history read.
#[derive(Debug)]
pub struct GetHistoryRequest {
    pub limit: usize,
}

/// What a WebSocket subscriber is greeted with.
#[derive(Debug)]
pub struct ConnectionResponse {
    pub status: String,
    pub database: String,
    pub table: Option<String>,
}

/// A record as the service hands it around: its free-form payload and,
/// once stored, its identifier.
pub struct TableData {
    pub data: Vec<(Vec<u8>, JsonValue)>,
    pub doc_id: Option<Vec<u8>>,
}

impl TableData {
    /// An empty record.
    pub fn new() -> (r: TableData)
        ensures
            r.data@.len() == 0,
            r.doc_id is None,
    {
        TableData { data: Vec::new(), doc_id: None }
    }

    /// Reads a record out of a document: the `doc_id` string apart, the
    /// object's entries become the payload. Anything but an object is an
    /// empty record.
    pub fn from_json(value: &JsonValue) -> (r: TableData)
        ensures
            value.model() is Obj ==> obj_model(r.data@) == drop_key(
                value.model()->Obj_0,
                doc_id_key(),
            ),
            !(value.model() is Obj) ==> r.data@.len() == 0 && r.doc_id is None,
            value.model() is Obj ==> match json_field(value.model(), doc_id_key()) {
                Option::Some(d) => d is Str ==> (r.doc_id matches Some(id) && id@ == d->Str_0),
                Option::None => r.doc_id is None,
            },
    {
        match value {
            JsonValue::Obj(entries) => {
                let doc_key = doc_id_key_bytes();
                let doc_id = match obj_get(value, &doc_key) {
                    Some(JsonValue::Str(s)) => Some(crate::json::copy_bytes(s)),
                    _ => None,
                };
                let data = remove_doc_entries(entries, &doc_key);
                proof {
                    lemma_model_obj(*value);
                }
                TableData { data, doc_id }
            },
            _ => TableData { data: Vec::new(), doc_id: None },
        }
    }

    /// The record as one document: the payload's entries and, when the
    /// record has one, its `doc_id`.
    pub fn to_json(&self) -> (r: JsonValue)
        ensures
            r.model() is Obj,
            match self.doc_id {
                Option::Some(id) => r.model()->Obj_0 == obj_model(self.data@).push(
                    (doc_id_key(), Json::Str(id@)),
                ),
                Option::None => r.model()->Obj_0 == obj_model(self.data@),
            },
    {
        let mut entries: Vec<(Vec<u8>, JsonValue)> = Vec::new();
        let n = self.data.len();
        proof {
            lemma_obj_model(entries@);
            assert(obj_model(entries@) =~= obj_model(self.data@.subrange(0, 0)));
        }
        for i in 0..n
            invariant
                n == self.data@.len(),
                obj_model(entries@) == obj_model(self.data@.subrange(0, i as int)),
            decreases n - i,
        {
            let pair = (
                crate::json::copy_bytes(&self.data[i].0),
                json_clone(&self.data[i].1),
            );
            proof {
                crate::json::lemma_obj_model_snoc(entries@, pair);
                crate::json::lemma_obj_model_snoc(
                    self.data@.subrange(0, i as int),
                    self.data@[i as int],
                );
                assert(self.data@.subrange(0, i + 1) =~= self.data@.subrange(0, i as int).push(
                    self.data@[i as int],
                ));
            }
            entries.push(pair);
        }
        proof {
            assert(self.data@.subrange(0, self.data@.len() as int) =~= self.data@);
        }
        match &self.doc_id {
            Some(id) => {
                let pair = (doc_id_key_bytes(), JsonValue::Str(crate::json::copy_bytes(id)));
                proof {
                    crate::json::lemma_obj_model_snoc(entries@, pair);
                }
                entries.push(pair);
                let r = JsonValue::Obj(entries);
                proof {
                    lemma_model_obj(r);
                }
                r
            },
            None => {
                let r = JsonValue::Obj(entries);
                proof {
                    lemma_model_obj(r);
                }
                r
            },
        }
    }
}

/// Drops every `doc_id` entry, copying the rest.
fn remove_doc_entries(entries: &Vec<(Vec<u8>, JsonValue)>, doc_key: &Vec<u8>) -> (r: Vec<
    (Vec<u8>, JsonValue),
>)
    requires
        doc_key@ == doc_id_key(),
    ensures
        obj_model(r@) == drop_key(obj_model(entries@), doc_id_key()),
{
    crate::record::remove_entries(entries, doc_key)
}

} // verus!
