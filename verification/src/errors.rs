//! The errors the engine surfaces.

use vstd::prelude::*;

verus! {

/// Everything that can go wrong inside the store.
#[derive(Debug)]
pub enum ChainDBError {
    IoError(String),
    SerializationError(String),
    InvalidCredentials(String),
    EncryptionError(String),
    DecryptionError(String),
    DatabaseAlreadyExists(String),
    DatabaseNotFound(String),
    ConfigNotFound(String),
    ValidationError(String),
    RecordNotFound(String),
}

} // verus!
