//! Key derivation and authenticated encryption.
//!
//! A 32-byte master key is the SHA-256 digest of the password. A sealed
//! blob is a fresh random 12-byte nonce followed by the AES-256-GCM
//! ciphertext (tag included) of the plaintext under that nonce.

use vstd::prelude::*;

use aes_gcm::aead::{Aead, KeyInit};
use aes_gcm::{Aes256Gcm, Key, Nonce};
use rand::rngs::OsRng;
use rand::RngCore;
use sha2::{Digest, Sha256};

use crate::errors::ChainDBError;

verus! {

/// The SHA-256 digest of a byte string.
pub uninterp spec fn key_of(password: Seq<u8>) -> Seq<u8>;

/// What deciphering a sealed blob under a key gives: the first 12 bytes
/// are read as the nonce, the rest as ciphertext and tag; `None` when
/// authentication fails.
pub uninterp spec fn aead_open(key: Seq<u8>, sealed: Seq<u8>) -> Option<Seq<u8>>;

/// The key derived from a password given as text.
pub open spec fn derived_key(password: Seq<char>) -> Seq<u8> {
    key_of(vstd::utf8::encode_utf8(password))
}

/// Relies on sha2's `Sha256`: the digest is a function of the input alone
/// and is 32 bytes long.
#[verifier::external_body]
fn sha256_digest(data: &[u8]) -> (r: Vec<u8>)
    ensures
        r@ == key_of(data@),
        r@.len() == 32,
{
    let mut hasher = Sha256::default();
    hasher.update(data);
    hasher.finalize().to_vec()
}

/// Relies on aes_gcm's `Aes256Gcm::encrypt` and rand's `OsRng`: whatever
/// nonce is drawn, deciphering the sealed blob under the same key gives
/// back the plaintext; the blob is the 12-byte nonce followed by the
/// ciphertext and its 16-byte tag. Drawing the nonce aborts the process
/// if the operating system's entropy source fails.
#[verifier::external_body]
fn aead_seal(key: &Vec<u8>, plain: &Vec<u8>) -> (r: Result<Vec<u8>, ()>)
    requires
        key@.len() == 32,
    ensures
        r is Ok ==> aead_open(key@, r.unwrap()@) == Some(plain@),
        r is Ok ==> r.unwrap()@.len() == plain@.len() + 28,
{
    let mut nonce_bytes = [0u8; 12];
    OsRng.fill_bytes(&mut nonce_bytes);
    let nonce = Nonce::from_slice(&nonce_bytes);
    let cipher = Aes256Gcm::new(Key::<Aes256Gcm>::from_slice(key));
    match cipher.encrypt(nonce, plain.as_slice()) {
        Ok(mut ciphertext) => {
            let mut sealed = nonce_bytes.to_vec();
            sealed.append(&mut ciphertext);
            Ok(sealed)
        },
        Err(_) => Err(()),
    }
}

/// Relies on aes_gcm's `Aes256Gcm::decrypt`: the outcome is a function of
/// key and blob alone; it succeeds exactly when the tag authenticates.
#[verifier::external_body]
fn aead_unseal(key: &Vec<u8>, sealed: &Vec<u8>) -> (r: Result<Vec<u8>, ()>)
    requires
        key@.len() == 32,
        sealed@.len() >= 12,
    ensures
        r is Ok <==> aead_open(key@, sealed@) is Some,
        r is Ok ==> Some(r.unwrap()@) == aead_open(key@, sealed@),
{
    let nonce = Nonce::from_slice(&sealed[..12]);
    let cipher = Aes256Gcm::new(Key::<Aes256Gcm>::from_slice(key));
    match cipher.decrypt(nonce, &sealed[12..]) {
        Ok(plain) => Ok(plain),
        Err(_) => Err(()),
    }
}

/// A master key, ready to seal and open record bytes.
pub struct DataEncryption {
    master_key: Vec<u8>,
}

impl Default for DataEncryption {
    /// The key of the empty password.
    fn default() -> (r: DataEncryption)
        ensures
            r.wf(),
            r.key() == derived_key(""@),
    {
        DataEncryption::new("")
    }
}

impl DataEncryption {
    /// The key this cipher holds.
    pub closed spec fn key(self) -> Seq<u8> {
        self.master_key@
    }

    /// The key has the length AES-256 asks for.
    pub closed spec fn wf(self) -> bool {
        self.master_key@.len() == 32
    }

    /// Derives the master key from a password.
    pub fn new(password: &str) -> (r: DataEncryption)
        ensures
            r.wf(),
            r.key() == derived_key(password@),
    {
        let key = sha256_digest(password.as_bytes());
        DataEncryption { master_key: key }
    }

    /// Derives the master key from password bytes.
    pub fn from_password_bytes(password: &Vec<u8>) -> (r: DataEncryption)
        ensures
            r.wf(),
            r.key() == key_of(password@),
    {
        let key = sha256_digest(password.as_slice());
        DataEncryption { master_key: key }
    }

    /// An identical cipher.
    pub fn duplicate(&self) -> (r: DataEncryption)
        ensures
            r.key() == self.key(),
            r.wf() == self.wf(),
    {
        let mut key: Vec<u8> = Vec::new();
        let n = self.master_key.len();
        for i in 0..n
            invariant
                n == self.master_key@.len(),
                key@ == self.master_key@.subrange(0, i as int),
            decreases n - i,
        {
            key.push(self.master_key[i]);
            proof {
                assert(key@ =~= self.master_key@.subrange(0, i + 1));
            }
        }
        proof {
            assert(self.master_key@.subrange(0, self.master_key@.len() as int) =~= self.master_key@);
        }
        DataEncryption { master_key: key }
    }

    /// Seals plaintext under this key: nonce followed by ciphertext.
    pub fn encrypt(&self, data: &Vec<u8>) -> (r: Result<Vec<u8>, ChainDBError>)
        requires
            self.wf(),
        ensures
            r is Ok ==> aead_open(self.key(), r.unwrap()@) == Some(data@),
            r is Ok ==> r.unwrap()@.len() == data@.len() + 28,
            r is Err ==> r.unwrap_err() is EncryptionError,
    {
        match aead_seal(&self.master_key, data) {
            Ok(sealed) => Ok(sealed),
            Err(_) => Err(ChainDBError::EncryptionError("encryption failed".to_owned())),
        }
    }

    /// Opens a sealed blob under this key. Blobs shorter than a nonce are
    /// rejected outright; otherwise success is exactly authentication.
    pub fn decrypt(&self, sealed: &Vec<u8>) -> (r: Result<Vec<u8>, ChainDBError>)
        requires
            self.wf(),
        ensures
            sealed@.len() < 12 ==> r is Err,
            sealed@.len() >= 12 ==> ((r is Ok) <==> aead_open(self.key(), sealed@) is Some),
            r is Ok ==> Some(r.unwrap()@) == aead_open(self.key(), sealed@),
            r is Err ==> r.unwrap_err() is DecryptionError,
    {
        if sealed.len() < 12 {
            return Err(ChainDBError::DecryptionError("invalid encrypted data length".to_owned()));
        }
        match aead_unseal(&self.master_key, sealed) {
            Ok(plain) => Ok(plain),
            Err(_) => Err(ChainDBError::DecryptionError("decryption failed".to_owned())),
        }
    }
}

} // verus!
