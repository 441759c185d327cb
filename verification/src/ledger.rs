//! The legacy ledger: a hash-linked chain of blocks of sealed
//! transactions. Here the chain is held in memory, most recent block
//! last; the store of record is the table engine.

use vstd::prelude::*;

use crate::sys::now_seconds;
use base64::Engine;
use base64::engine::general_purpose::STANDARD_NO_PAD;
use sha2::{Digest, Sha256};

verus! {

/// How many blocks a chain read walks at most.
pub const SEARCH_BLOCK_DEPTH: u64 = 1000;

/// The 64 lower-case hexadecimal digits of the SHA-256 digest of a text.
pub uninterp spec fn sha256_hex(data: Seq<char>) -> Seq<char>;

/// Relies on sha2's `Sha256`: the digest is a function of the input
/// alone; its hexadecimal form is 64 digits long.
#[verifier::external_body]
pub fn hash_generator(data: &str) -> (r: String)
    ensures
        r@ == sha256_hex(data@),
        r@.len() == 64,
{
    format!("{:x}", Sha256::digest(data.as_bytes()))
}

/// What the ledger's own base64 decoder gives on a text: `None` when the
/// text is not unpadded base64.
pub uninterp spec fn b64_nopad_decoded(text: Seq<char>) -> Option<Seq<u8>>;

/// Unpadded base64 text, as the ledger stores binary payloads.
pub struct Base64;

impl Base64 {
    /// Relies on base64's `STANDARD_NO_PAD` engine: decoding an encoded
    /// string gives back the input.
    #[verifier::external_body]
    pub fn encode(bytes: Vec<u8>) -> (r: String)
        ensures
            b64_nopad_decoded(r@) == Some(bytes@),
    {
        STANDARD_NO_PAD.encode(&bytes)
    }

    /// Relies on base64's `STANDARD_NO_PAD` engine: decoding is a
    /// function of the text alone.
    #[verifier::external_body]
    pub fn decode(encoded: String) -> (r: Option<Vec<u8>>)
        ensures
            r is Some <==> b64_nopad_decoded(encoded@) is Some,
            r is Some ==> Some(r.unwrap()@) == b64_nopad_decoded(encoded@),
    {
        match STANDARD_NO_PAD.decode(&encoded) {
            Ok(bytes) => Some(bytes),
            Err(_) => None,
        }
    }
}

/// Seconds since the Unix epoch.
pub fn get_timestamp() -> u64 {
    now_seconds()
}

/// One block: its position, its payload of sealed transactions, and the
/// hashes linking it into the chain.
#[derive(Debug)]
pub struct Block {
    pub height: i64,
    pub nonce: i64,
    pub transactions: Vec<String>,
    pub timestamp: u64,
    pub hash: String,
    pub prev_hash: String,
}

impl Block {
    /// A block at a height, linked to its parent; an absent hash stands
    /// as `"0"` until the block is sealed, and an absent payload is
    /// empty.
    pub fn new(height: i64, prev_hash: String, hash: Option<String>, transactions: Option<
        Vec<String>,
    >) -> (b: Block)
        ensures
            b.height == height,
            b.nonce == 0,
            b.prev_hash == prev_hash,
            match hash {
                Option::Some(h) => b.hash == h,
                Option::None => b.hash@ == "0"@,
            },
            match transactions {
                Option::Some(t) => b.transactions == t,
                Option::None => b.transactions@.len() == 0,
            },
    {
        Block {
            height,
            transactions: match transactions {
                Some(t) => t,
                None => Vec::new(),
            },
            timestamp: get_timestamp(),
            hash: match hash {
                Some(h) => h,
                None => "0".to_owned(),
            },
            prev_hash,
            nonce: 0,
        }
    }

    /// A copy of this block.
    pub fn duplicate(&self) -> (b: Block)
        ensures
            b.height == self.height,
            b.nonce == self.nonce,
            b.timestamp == self.timestamp,
            b.hash@ == self.hash@,
            b.prev_hash@ == self.prev_hash@,
            b.transactions@.len() == self.transactions@.len(),
            forall|i: int| 0 <= i < self.transactions@.len()
                ==> (#[trigger] b.transactions@[i])@ == self.transactions@[i]@,
    {
        let mut txs: Vec<String> = Vec::new();
        let n = self.transactions.len();
        for i in 0..n
            invariant
                n == self.transactions@.len(),
                txs@.len() == i,
                forall|j: int| 0 <= j < i ==> (#[trigger] txs@[j])@ == self.transactions@[j]@,
            decreases n - i,
        {
            txs.push(self.transactions[i].clone());
        }
        Block {
            height: self.height,
            nonce: self.nonce,
            transactions: txs,
            timestamp: self.timestamp,
            hash: self.hash.clone(),
            prev_hash: self.prev_hash.clone(),
        }
    }
}

/// What mining gives back: whether anything was mined, or the height of
/// the new block.
#[derive(Debug)]
pub enum MineReturnOptions {
    BOOL(bool),
    I64(i64),
}

/// The chain, oldest block first, and the transactions waiting to be
/// mined into the next one.
pub struct Blockchain {
    pub unconfirmed_transactions: Vec<String>,
    pub blocks: Vec<Block>,
}

impl Blockchain {
    /// A chain holding its genesis block and no waiting transactions.
    pub fn new() -> (r: Blockchain)
        ensures
            r.unconfirmed_transactions@.len() == 0,
            r.blocks@.len() == 1,
            r.blocks@[0].height == 0,
            r.blocks@[0].prev_hash@ == "0"@,
            r.blocks@[0].hash@ == sha256_hex("first_gen"@),
    {
        let hash_first = hash_generator("first_gen");
        let genesis = Block::new(0, "0".to_owned(), Some(hash_first), None);
        let mut blocks: Vec<Block> = Vec::new();
        blocks.push(genesis);
        Blockchain { unconfirmed_transactions: Vec::new(), blocks }
    }

    /// Up to `depth` blocks, most recent first.
    pub fn chain(&self, depth: u64) -> (r: Vec<Block>)
        ensures
            r@.len() == vstd::math::min(depth as int, self.blocks@.len() as int),
            forall|i: int| 0 <= i < r@.len() ==> ({
                let b = #[trigger] r@[i];
                let o = self.blocks@[self.blocks@.len() - 1 - i];
                &&& b.height == o.height
                &&& b.hash@ == o.hash@
                &&& b.prev_hash@ == o.prev_hash@
            }),
    {
        let n = self.blocks.len();
        let count: usize = if (depth as u64) < (n as u64) {
            depth as usize
        } else {
            n
        };
        let mut out: Vec<Block> = Vec::new();
        for i in 0..count
            invariant
                n == self.blocks@.len(),
                count == vstd::math::min(depth as int, n as int),
                out@.len() == i,
                forall|j: int| 0 <= j < i ==> ({
                    let b = #[trigger] out@[j];
                    let o = self.blocks@[n - 1 - j];
                    &&& b.height == o.height
                    &&& b.hash@ == o.hash@
                    &&& b.prev_hash@ == o.prev_hash@
                }),
            decreases count - i,
        {
            out.push(self.blocks[n - 1 - i].duplicate());
        }
        out
    }
}

/// What the ledger's chain endpoint answers with: the chain it walked
/// and its length.
pub struct ChainResponse {
    pub length: usize,
    pub chain: Vec<Block>,
}

/// Account identifiers: a user is referred to by a digest of their name.
pub struct AccountId {}

impl AccountId {
    /// The identifier for an account name.
    pub fn parse(account: String) -> (r: String)
        ensures
            r@ == sha256_hex(account@),
    {
        hash_generator(account.as_str())
    }
}

/// The kinds of ledger transactions.
#[derive(Debug, Clone, Copy, PartialEq, Eq, Structural)]
pub enum TransactionType {
    NONE,
    ACCOUNT,
    CONTRACT,
    TRANSFER,
}

/// A contract transaction as it travels with its access key.
#[derive(Debug)]
pub struct SecureContractTransactionData {
    pub tx_type: TransactionType,
    pub contract_id: String,
    pub db_access_key: String,
    pub timestamp: Option<u64>,
    pub data: String,
}

/// A contract transaction as the ledger stores it.
#[derive(Debug)]
pub struct ContractTransactionData {
    pub tx_type: TransactionType,
    pub contract_id: String,
    pub timestamp: Option<u64>,
    pub data: String,
}

/// What creating an account takes.
#[derive(Debug)]
pub struct CreateAccountPayload {
    pub db_access_key: String,
    pub user_name: String,
    pub password: String,
    pub units: Option<u64>,
}

/// A transfer of units between two accounts.
#[derive(Debug)]
pub struct TransferUnitsData {
    pub tx_type: TransactionType,
    pub contract_id: String,
    pub db_access_key: String,
    pub from: String,
    pub to: String,
    pub units: u64,
}

/// An account and its balance.
#[derive(Debug)]
pub struct UserAccount {
    pub id: String,
    pub user_name: String,
    pub units: u64,
}

/// The account row the ledger keeps per user.
#[derive(Debug, Clone)]
pub struct UserAccountTable {
    pub id: String,
    pub user_name: String,
    pub units: u64,
}

/// The row reserving a user name, with a hint for its password.
#[derive(Debug, Clone)]
pub struct UserNameTable {
    pub user_name: String,
    pub password_hint: String,
}

/// The row recording one transfer.
#[derive(Debug, Clone)]
pub struct TransferUnitsTable {
    pub from: String,
    pub to: String,
    pub units: u64,
}

} // verus!
