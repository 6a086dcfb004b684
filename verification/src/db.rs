//! The logic of the encrypted local database: its errors, the files kept
//! beside it, replay protection by per-owner nonces, the signing identity
//! and the records of the trade history. The SQL itself runs outside the
//! library; the decisions are made here.

use vstd::prelude::*;
use crate::crypto::{random_secret, sqlcipher_key_text, key_to_sqlcipher_hex};
use crate::hexcode::{hex_decode, hex_decode_error, hex_decoded, hex_encode, hex_text, law_hex_roundtrip};
use crate::order::{ed25519_derive_public, ed25519_public_key, valid_identity};
use crate::text::{nat_text, push_nat, push_str};
use vstd::utf8::encode_utf8;

verus! {

broadcast use vstd::seq::group_seq_axioms;

/// An error of the encrypted database.
#[derive(Debug)]
pub enum DbError {
    Io(String),
    Sqlite(String),
    Crypto(String),
    WrongPassword,
}

/// How a database error reads.
pub open spec fn db_error_text(e: DbError) -> Seq<char> {
    match e {
        DbError::Io(s) => "io: "@ + s@,
        DbError::Sqlite(s) => "sqlite: "@ + s@,
        DbError::Crypto(s) => "crypto: "@ + s@,
        DbError::WrongPassword => "wrong password or corrupted database"@,
    }
}

impl Clone for DbError {
    fn clone(&self) -> (r: Self)
        ensures
            r == *self,
    {
        match self {
            DbError::Io(s) => DbError::Io(s.clone()),
            DbError::Sqlite(s) => DbError::Sqlite(s.clone()),
            DbError::Crypto(s) => DbError::Crypto(s.clone()),
            DbError::WrongPassword => DbError::WrongPassword,
        }
    }
}

impl DbError {
    /// The error's message, as its display shows it.
    pub fn to_string(&self) -> (r: String)
        ensures
            r@ == db_error_text(*self),
    {
        let mut m = String::new();
        match self {
            DbError::Io(s) => {
                push_str(&mut m, "io: ");
                push_str(&mut m, s.as_str());
            },
            DbError::Sqlite(s) => {
                push_str(&mut m, "sqlite: ");
                push_str(&mut m, s.as_str());
            },
            DbError::Crypto(s) => {
                push_str(&mut m, "crypto: ");
                push_str(&mut m, s.as_str());
            },
            DbError::WrongPassword => {
                push_str(&mut m, "wrong password or corrupted database");
            },
        }
        m
    }
}

/// The file name of the database where its path has none.
pub open spec fn default_db_name() -> Seq<char> {
    "yonodex.db"@
}

/// The name of a file kept beside the database: the database's file name
/// (or the default one) followed by `.` and the extension.
pub open spec fn sidecar_name(db_file_name: Option<Seq<char>>, ext: Seq<char>) -> Seq<char> {
    match db_file_name {
        Some(n) => n + "."@ + ext,
        None => default_db_name() + "."@ + ext,
    }
}

fn sidecar(db_file_name: Option<&str>, ext: &str) -> (r: String)
    ensures
        r@ == sidecar_name(
            match db_file_name {
                Some(n) => Some(n@),
                None => None,
            },
            ext@,
        ),
{
    let mut s = String::new();
    match db_file_name {
        Some(n) => push_str(&mut s, n),
        None => push_str(&mut s, "yonodex.db"),
    }
    push_str(&mut s, ".");
    push_str(&mut s, ext);
    s
}

/// The file name of the salt file, beside a database with the given file name.
pub fn salt_path(db_file_name: Option<&str>) -> (r: String)
    ensures
        r@ == sidecar_name(
            match db_file_name {
                Some(n) => Some(n@),
                None => None,
            },
            "salt"@,
        ),
{
    sidecar(db_file_name, "salt")
}

/// The file name of the password hint file, beside a database with the given file name.
pub fn hint_path(db_file_name: Option<&str>) -> (r: String)
    ensures
        r@ == sidecar_name(
            match db_file_name {
                Some(n) => Some(n@),
                None => None,
            },
            "hint"@,
        ),
{
    sidecar(db_file_name, "hint")
}

/// The salt read from the salt file: exactly 32 bytes, else an I/O error.
pub fn salt_from_bytes(bytes: &[u8]) -> (r: Result<[u8; 32], DbError>)
    ensures
        bytes@.len() == 32 ==> (r matches Ok(s) && s@ == bytes@),
        bytes@.len() != 32 ==> (r matches Err(DbError::Io(t)) && t@ == "salt file has wrong length"@),
{
    if bytes.len() != 32 {
        let mut m = String::new();
        push_str(&mut m, "salt file has wrong length");
        return Err(DbError::Io(m));
    }
    let mut salt = [0u8; 32];
    let mut i: usize = 0;
    while i < 32
        invariant
            bytes@.len() == 32,
            i <= 32,
            salt@.len() == 32,
            forall|j: int| 0 <= j < i ==> salt@[j] == bytes@[j],
        decreases 32 - i,
    {
        salt[i] = bytes[i];
        i = i + 1;
    }
    assert(salt@ =~= bytes@);
    Ok(salt)
}

/// The statement that unlocks the database with a raw key.
pub open spec fn key_pragma_text(key: Seq<u8>) -> Seq<char> {
    "PRAGMA key = \""@ + sqlcipher_key_text(key) + "\";"@
}

/// The statement that unlocks the database with a raw key:
/// `PRAGMA key = "x'<hex>'";`.
pub fn key_pragma(key: &[u8; 32]) -> (r: String)
    ensures
        r@ == key_pragma_text(key@),
{
    let h = key_to_sqlcipher_hex(key);
    let mut s = String::new();
    push_str(&mut s, "PRAGMA key = \"");
    push_str(&mut s, h.as_str());
    push_str(&mut s, "\";");
    s
}

/// What a replayed nonce is reported as.
pub open spec fn replay_detail(nonce: u64, last: u64, owner: Seq<char>) -> Seq<char> {
    "replay detected: nonce "@ + nat_text(nonce as nat) + " <= last seen "@ + nat_text(last as nat)
        + " for owner "@ + owner
}

/// Check whether an incoming order's nonce is valid: strictly greater than
/// `last_nonce`, the last one seen from its owner (0 if none was).
/// Returns Err if the nonce was already used (replay attack).
pub fn check_nonce(last_nonce: u64, owner: &str, nonce: u64) -> (r: Result<(), DbError>)
    ensures
        nonce > last_nonce ==> r is Ok,
        nonce <= last_nonce ==> (r matches Err(DbError::Sqlite(s)) && s@ == replay_detail(nonce, last_nonce, owner@)),
{
    if nonce <= last_nonce {
        let mut m = String::new();
        push_str(&mut m, "replay detected: nonce ");
        push_nat(&mut m, nonce as u128);
        push_str(&mut m, " <= last seen ");
        push_nat(&mut m, last_nonce as u128);
        push_str(&mut m, " for owner ");
        push_str(&mut m, owner);
        return Err(DbError::Sqlite(m));
    }
    Ok(())
}

/// A signing identity from a 32-byte secret key: the hex of its public key
/// (the owner) and the hex of the secret.
pub open spec fn identity_of(secret: Seq<u8>) -> (Seq<char>, Seq<char>) {
    (hex_text(ed25519_public_key(secret)), hex_text(secret))
}

/// The signing identity `(owner_hex, private_hex)` of a secret key.
pub fn identity_from_secret(secret: &[u8; 32]) -> (r: (String, String))
    ensures
        (r.0@, r.1@) == identity_of(secret@),
        valid_identity(secret@, r.0@),
{
    let public = ed25519_derive_public(secret.as_slice());
    (hex_encode(public.as_slice()), hex_encode(secret.as_slice()))
}

/// A fresh random signing identity `(owner_hex, private_hex)`.
pub fn generate_signing_identity() -> (r: (String, String))
    ensures
        exists|secret: Seq<u8>| #[trigger] identity_of(secret) == (r.0@, r.1@) && valid_identity(secret, r.0@),
{
    let secret = random_secret();
    identity_from_secret(&secret)
}

/// What a stored private key decodes to: its 32 bytes, or the error.
pub open spec fn stored_key_result(private_hex: Seq<char>) -> Result<Seq<u8>, Seq<char>> {
    let raw = encode_utf8(private_hex);
    match hex_decoded(raw) {
        None => Err(hex_decode_error(raw)),
        Some(b) => if b.len() != 32 {
            Err("stored key has wrong length: "@ + nat_text(b.len()))
        } else {
            Ok(b)
        },
    }
}

/// Decode the stored private key from its hex text.
pub fn decode_stored_key(private_hex: &str) -> (r: Result<[u8; 32], String>)
    ensures
        match stored_key_result(private_hex@) {
            Ok(b) => r matches Ok(k) && k@ == b,
            Err(t) => r matches Err(e) && e@ == t,
        },
{
    proof {
        reveal_strlit("stored key has wrong length: ");
    }
    let decoded = match hex_decode(private_hex) {
        Ok(b) => b,
        Err(e) => return Err(e),
    };
    if decoded.len() != 32 {
        let mut m = String::new();
        push_str(&mut m, "stored key has wrong length: ");
        push_nat(&mut m, decoded.len() as u128);
        return Err(m);
    }
    let mut key = [0u8; 32];
    let mut i: usize = 0;
    while i < 32
        invariant
            decoded@.len() == 32,
            i <= 32,
            key@.len() == 32,
            forall|j: int| 0 <= j < i ==> key@[j] == decoded@[j],
        decreases 32 - i,
    {
        key[i] = decoded[i];
        i = i + 1;
    }
    assert(key@ =~= decoded@);
    Ok(key)
}

/// What is stored of an identity reads back: the stored private key
/// decodes to the secret it was made from.
pub proof fn law_stored_key_roundtrip(secret: Seq<u8>)
    requires
        secret.len() == 32,
    ensures
        stored_key_result(identity_of(secret).1) == Ok::<Seq<u8>, Seq<char>>(secret),
{
    law_hex_roundtrip(secret);
}

/// A row of the trade history (scoped per wallet).
#[derive(Debug)]
pub struct TradeRecord {
    pub id: i64,
    pub wallet_address: String,
    pub tx_hash: Option<String>,
    pub chain_id: String,
    pub pair: String,
    pub side: String,
    pub amount_in: String,
    pub amount_out: String,
    pub token_in: String,
    pub token_out: String,
    pub status: String,
    pub timestamp: i64,
    pub notes: Option<String>,
}

impl Clone for TradeRecord {
    fn clone(&self) -> (r: Self)
        ensures
            r == *self,
    {
        TradeRecord {
            id: self.id,
            wallet_address: self.wallet_address.clone(),
            tx_hash: match &self.tx_hash {
                Some(h) => Some(h.clone()),
                None => None,
            },
            chain_id: self.chain_id.clone(),
            pair: self.pair.clone(),
            side: self.side.clone(),
            amount_in: self.amount_in.clone(),
            amount_out: self.amount_out.clone(),
            token_in: self.token_in.clone(),
            token_out: self.token_out.clone(),
            status: self.status.clone(),
            timestamp: self.timestamp,
            notes: match &self.notes {
                Some(n) => Some(n.clone()),
                None => None,
            },
        }
    }
}

/// The number of trade records to load where the caller gives no limit.
pub const DEFAULT_TRADE_LIMIT: i64 = 100;

/// The limit for a trade history query.
pub fn trade_limit(limit: Option<i64>) -> (r: i64)
    ensures
        r == (match limit {
            Some(n) => n,
            None => DEFAULT_TRADE_LIMIT,
        }),
{
    match limit {
        Some(n) => n,
        None => DEFAULT_TRADE_LIMIT,
    }
}

} // verus!
