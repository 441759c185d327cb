//! Identifiers and clock readings drawn from the environment.

use vstd::prelude::*;

verus! {

/// Relies on uuid's `Uuid::new_v4`: a fresh random identifier; its
/// hyphenated text form is 36 ASCII bytes. Drawing the identifier aborts
/// the process if the operating system's entropy source fails.
#[verifier::external_body]
pub fn new_doc_id() -> (r: Vec<u8>)
    ensures
        r@.len() == 36,
{
    uuid::Uuid::new_v4().to_string().into_bytes()
}

/// Relies on std's `SystemTime`: whole seconds since the Unix epoch, or 0
/// should the clock sit before it.
#[verifier::external_body]
pub fn now_seconds() -> u64 {
    match std::time::SystemTime::now().duration_since(std::time::SystemTime::UNIX_EPOCH) {
        Ok(d) => d.as_secs(),
        Err(_) => 0,
    }
}

} // verus!
