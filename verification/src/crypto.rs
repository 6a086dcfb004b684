//! Key derivation for the encrypted local database.
//!
//! The database key is derived from the master password with Argon2id
//! (64 MiB of memory, 3 passes, 4 lanes, a 32-byte output). The key is held
//! only in memory; the salt is stored beside the database (it is not secret).

use vstd::prelude::*;
use vstd::utf8::encode_utf8;
use vstd::string::StrSliceExecFns;
use crate::hexcode::{hex_encode, hex_text};
use crate::text::push_str;
use argon2::{Algorithm, Argon2, Params, Version};
use rand::RngCore;

verus! {

broadcast use vstd::seq::group_seq_axioms;

/// Argon2 memory cost in KiB (64 MiB).
pub const ARGON2_MEMORY_KIB: u32 = 64 * 1024;

/// Argon2 passes over memory.
pub const ARGON2_ITERATIONS: u32 = 3;

/// Argon2 lanes.
pub const ARGON2_PARALLELISM: u32 = 4;

/// Length of the salt stored beside the database.
pub const SALT_LEN: usize = 32;

/// Length of the derived key (256 bits, for AES-256).
pub const KEY_LEN: usize = 32;

/// Why an Argon2 derivation failed: the parameters were refused, or the hashing was.
pub enum Argon2Failure {
    Params(String),
    Hash(String),
}

/// The output of Argon2id (version 0x13) for a password and a salt with the
/// given memory cost, passes, lanes and output length.
pub uninterp spec fn argon2id_output(
    password: Seq<u8>,
    salt: Seq<u8>,
    m_cost: u32,
    t_cost: u32,
    p_cost: u32,
    out_len: usize,
) -> Seq<u8>;

/// The message of the error with which `argon2::Params::new` refuses its
/// arguments, checked in its order; `None` where it accepts them.
pub open spec fn argon2_params_error(m_cost: u32, t_cost: u32, p_cost: u32, out_len: usize) -> Option<Seq<char>> {
    if m_cost < 8 || m_cost < p_cost * 8 {
        Some("memory cost is too small"@)
    } else if t_cost < 1 {
        Some("time cost is too small"@)
    } else if p_cost < 1 {
        Some("not enough threads"@)
    } else if p_cost > 0xFF_FFFF {
        Some("too many threads"@)
    } else if out_len < 4 {
        Some("output is too short"@)
    } else if out_len > 0xFFFF_FFFF {
        Some("output is too long"@)
    } else {
        None
    }
}

/// The message of the error with which `Argon2::hash_password_into` refuses a
/// password and a salt; `None` where it accepts them.
pub open spec fn argon2_input_error(password: Seq<u8>, salt: Seq<u8>) -> Option<Seq<char>> {
    if password.len() > 0xFFFF_FFFF {
        Some("password is too long"@)
    } else if salt.len() < 8 {
        Some("salt is too short"@)
    } else if salt.len() > 0xFFFF_FFFF {
        Some("salt is too long"@)
    } else {
        None
    }
}

/// Argon2id, version 0x13: `Params::new(m_cost, t_cost, p_cost, Some(out_len))`,
/// then `Argon2::new(..).hash_password_into` into a buffer of `out_len` bytes.
/// The contract states the crate's checks and their messages as its source
/// shows them, and names the derived bytes.
#[verifier::external_body]
fn argon2id_hash(
    password: &[u8],
    salt: &[u8],
    m_cost: u32,
    t_cost: u32,
    p_cost: u32,
    out_len: usize,
) -> (r: Result<Vec<u8>, Argon2Failure>)
    requires
        p_cost * 8 <= u32::MAX,
    ensures
        match argon2_params_error(m_cost, t_cost, p_cost, out_len) {
            Some(e) => r matches Err(Argon2Failure::Params(t)) && t@ == e,
            None => match argon2_input_error(password@, salt@) {
                Some(e) => r matches Err(Argon2Failure::Hash(t)) && t@ == e,
                None => r matches Ok(k) && k@ == argon2id_output(password@, salt@, m_cost, t_cost, p_cost, out_len)
                    && k@.len() == out_len,
            },
        },
{
    let params = match Params::new(m_cost, t_cost, p_cost, Some(out_len)) {
        Ok(p) => p,
        Err(e) => return Err(Argon2Failure::Params(e.to_string())),
    };
    let mut out = vec![0u8; out_len];
    match Argon2::new(Algorithm::Argon2id, Version::V0x13, params).hash_password_into(password, salt, &mut out) {
        Ok(()) => Ok(out),
        Err(e) => Err(Argon2Failure::Hash(e.to_string())),
    }
}

/// Fills the buffer with bytes from `rand::rng()` (`RngCore::fill_bytes`).
/// The bytes are random: nothing is stated of them but that the buffer keeps its length.
#[verifier::external_body]
fn fill_random(buf: &mut [u8])
    ensures
        final(buf)@.len() == old(buf)@.len(),
{
    rand::rng().fill_bytes(buf);
}

/// Generate a random 32-byte salt.
/// Called once when the DB is first created; salt is stored next to the DB.
pub fn generate_salt() -> (r: [u8; 32])
    ensures
        r@.len() == SALT_LEN,
{
    let mut salt = [0u8; 32];
    fill_random(&mut salt);
    salt
}

/// 32 random bytes, for a fresh secret key.
pub fn random_secret() -> (r: [u8; 32])
    ensures
        r@.len() == 32,
{
    let mut secret = [0u8; 32];
    fill_random(&mut secret);
    secret
}

/// The key that `derive_key` derives from a password's UTF-8 bytes and a salt.
pub open spec fn derived_key(password: Seq<char>, salt: Seq<u8>) -> Seq<u8> {
    argon2id_output(encode_utf8(password), salt, ARGON2_MEMORY_KIB, ARGON2_ITERATIONS, ARGON2_PARALLELISM, KEY_LEN)
}

/// Derive a 32-byte key from the master password and salt using Argon2id.
/// Returns the raw key bytes ready to pass to SQLCipher's `PRAGMA key`.
/// Fails, with "argon2 derive: " and the crate's message, for a salt
/// shorter than 8 bytes.
pub fn derive_key(password: &str, salt: &[u8]) -> (r: Result<[u8; 32], String>)
    ensures
        match argon2_input_error(encode_utf8(password@), salt@) {
            Some(e) => r matches Err(t) && t@ == "argon2 derive: "@ + e,
            None => r matches Ok(k) && k@ == derived_key(password@, salt@),
        },
{
    proof {
        reveal_strlit("argon2 params: ");
        reveal_strlit("argon2 derive: ");
    }
    let pwd = password.as_bytes_vec();
    match argon2id_hash(pwd.as_slice(), salt, ARGON2_MEMORY_KIB, ARGON2_ITERATIONS, ARGON2_PARALLELISM, KEY_LEN) {
        Ok(out) => {
            let mut key = [0u8; 32];
            let mut i: usize = 0;
            while i < 32
                invariant
                    out@.len() == 32,
                    i <= 32,
                    key@.len() == 32,
                    forall|j: int| 0 <= j < i ==> key@[j] == out@[j],
                decreases 32 - i,
            {
                key[i] = out[i];
                i = i + 1;
            }
            assert(key@ =~= out@);
            Ok(key)
        },
        Err(Argon2Failure::Params(e)) => {
            let mut m = String::new();
            push_str(&mut m, "argon2 params: ");
            push_str(&mut m, e.as_str());
            Err(m)
        },
        Err(Argon2Failure::Hash(e)) => {
            let mut m = String::new();
            push_str(&mut m, "argon2 derive: ");
            push_str(&mut m, e.as_str());
            Err(m)
        },
    }
}

/// How SQLCipher is given a raw key: `x'<hex>'`.
pub open spec fn sqlcipher_key_text(key: Seq<u8>) -> Seq<char> {
    "x'"@ + hex_text(key) + "'"@
}

/// Format the derived key as a SQLCipher-compatible hex string.
/// SQLCipher accepts: `PRAGMA key = "x'<hex>'";`
pub fn key_to_sqlcipher_hex(key: &[u8; 32]) -> (r: String)
    ensures
        r@ == sqlcipher_key_text(key@),
{
    let h = hex_encode(key.as_slice());
    let mut s = String::new();
    push_str(&mut s, "x'");
    push_str(&mut s, h.as_str());
    push_str(&mut s, "'");
    s
}

/// Wipe a key from memory. Best-effort (Rust cannot guarantee zeroing).
pub fn wipe_key(key: &mut [u8; 32])
    ensures
        final(key)@ == Seq::new(32, |i: int| 0u8),
{
    let mut i: usize = 0;
    while i < 32
        invariant
            i <= 32,
            key@.len() == 32,
            forall|j: int| 0 <= j < i ==> key@[j] == 0u8,
        decreases 32 - i,
    {
        key[i] = 0;
        i = i + 1;
    }
    assert(key@ =~= Seq::new(32, |i: int| 0u8));
}

} // verus!
