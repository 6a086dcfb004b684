use yonodex::clock::VectorClock;
use yonodex::commands::{parse_side, tombstone_label, tor_state, OrderPayload, TradeRecordPayload, WalletConfigPayload};
use yonodex::crypto::{derive_key, generate_salt, key_to_sqlcipher_hex, random_secret, wipe_key};
use yonodex::db::{check_nonce, decode_stored_key, generate_signing_identity, hint_path, identity_from_secret, key_pragma,
    salt_from_bytes, salt_path, trade_limit, DbError, TradeRecord};
use yonodex::decimal::Dec;
use yonodex::order::{Order, Side};
use yonodex::orderbook::TombstoneKind;

#[test]
fn db_errors_read_as_displayed() {
    assert_eq!(DbError::Io("disk".to_string()).to_string(), "io: disk");
    assert_eq!(DbError::Sqlite("locked".to_string()).to_string(), "sqlite: locked");
    assert_eq!(DbError::Crypto("bad".to_string()).to_string(), "crypto: bad");
    assert_eq!(DbError::WrongPassword.to_string(), "wrong password or corrupted database");
}

#[test]
fn nonces_must_increase() {
    assert!(check_nonce(0, "alice", 1).is_ok());
    assert!(check_nonce(4, "alice", 9).is_ok());
    match check_nonce(5, "alice", 5) {
        Err(DbError::Sqlite(s)) => assert_eq!(s, "replay detected: nonce 5 <= last seen 5 for owner alice"),
        other => panic!("unexpected {other:?}"),
    }
    let e = check_nonce(7, "bob", 2).unwrap_err();
    assert_eq!(e.to_string(), "sqlite: replay detected: nonce 2 <= last seen 7 for owner bob");
}

#[test]
fn sidecar_file_names() {
    assert_eq!(salt_path(Some("yonodex.db")), "yonodex.db.salt");
    assert_eq!(hint_path(Some("wallet.sqlite")), "wallet.sqlite.hint");
    assert_eq!(salt_path(None), "yonodex.db.salt");
    assert_eq!(hint_path(None), "yonodex.db.hint");
}

#[test]
fn stored_keys_decode_to_32_bytes() {
    let hex = "9d61b19deffd5a60ba844af492ec2cc44449c5697b326919703bac031cae7f60";
    let key = decode_stored_key(hex).expect("valid");
    assert_eq!(key[0], 0x9d);
    assert_eq!(key[31], 0x60);
    assert_eq!(decode_stored_key("abcd").unwrap_err(), "stored key has wrong length: 2");
    assert_eq!(decode_stored_key("xyz").unwrap_err(), "Odd number of digits");
    assert_eq!(decode_stored_key("x0").unwrap_err(), "Invalid character 'x' at position 0");
}

#[test]
fn generated_identities_are_consistent() {
    let (owner, private) = generate_signing_identity();
    assert_eq!(owner.len(), 64);
    assert_eq!(private.len(), 64);
    let secret = decode_stored_key(&private).expect("hex");
    let (owner2, private2) = identity_from_secret(&secret);
    assert_eq!(owner2, owner);
    assert_eq!(private2, private);
}

#[test]
fn salts_and_secrets_are_fresh() {
    let a = generate_salt();
    let b = generate_salt();
    assert_eq!(a.len(), 32);
    assert_ne!(a, b);
    assert_ne!(random_secret(), random_secret());
}

#[test]
fn derive_key_refuses_short_salt() {
    assert_eq!(derive_key("pw", b"short").unwrap_err(), "argon2 derive: salt is too short");
    assert_eq!(derive_key("pw", b"").unwrap_err(), "argon2 derive: salt is too short");
}

#[test]
fn sqlcipher_key_text() {
    let mut key = [0u8; 32];
    key[0] = 0xab;
    key[31] = 0x01;
    let s = key_to_sqlcipher_hex(&key);
    assert_eq!(s, format!("x'ab{}01'", "00".repeat(30)));
}

#[test]
fn wiped_keys_are_zero() {
    let mut key = [0x5au8; 32];
    wipe_key(&mut key);
    assert_eq!(key, [0u8; 32]);
}

#[test]
fn sides_parse_in_any_case() {
    assert_eq!(parse_side("buy"), Ok(Side::Buy));
    assert_eq!(parse_side("BUY"), Ok(Side::Buy));
    assert_eq!(parse_side("Sell"), Ok(Side::Sell));
    assert_eq!(parse_side("hold"), Err("invalid side: hold".to_string()));
    assert_eq!(parse_side(""), Err("invalid side: ".to_string()));
}

#[test]
fn order_payload_round_trip() {
    let mut vc = VectorClock::new();
    vc.set("p", 3);
    let o = Order {
        id: "1-abc".to_string(),
        owner: "abc".to_string(),
        side: Side::Sell,
        pair: "A/B".to_string(),
        price: "2".to_string(),
        amount: "1".to_string(),
        expiry: 9,
        nonce: 4,
        signature: "00".to_string(),
        vector_clock: vc,
    };
    let p = OrderPayload::from_order(&o);
    assert_eq!(p.side, "sell");
    assert_eq!(p.id, "1-abc");
    assert_eq!(p.vector_clock.get("p"), 3);
    let back = p.into_order().expect("side parses");
    assert_eq!(back.side, Side::Sell);
    assert_eq!(back.signable_bytes(), o.signable_bytes());
    assert_eq!(back.signature, o.signature);

    let mut q = OrderPayload::from_order(&o);
    q.side = "BUY".to_string();
    assert_eq!(q.into_order().unwrap().side, Side::Buy);
    let mut r = OrderPayload::from_order(&o);
    r.side = "short".to_string();
    assert_eq!(r.into_order().unwrap_err(), "invalid side: short");
}

#[test]
fn wallet_and_trade_payloads() {
    let w = WalletConfigPayload::from_row(("0xabc".to_string(), "1".to_string(), "u".to_string(), "main".to_string()));
    assert_eq!(w.address, "0xabc");
    assert_eq!(w.chain_id, "1");
    assert_eq!(w.wallet_uuid, "u");
    assert_eq!(w.wallet_name, "main");
    let t = TradeRecord {
        id: 3,
        wallet_address: "0xabc".to_string(),
        tx_hash: None,
        chain_id: "1".to_string(),
        pair: "A/B".to_string(),
        side: "buy".to_string(),
        amount_in: "1".to_string(),
        amount_out: "2".to_string(),
        token_in: "A".to_string(),
        token_out: "B".to_string(),
        status: "done".to_string(),
        timestamp: 77,
        notes: Some("n".to_string()),
    };
    let p = TradeRecordPayload::from_record(t.clone());
    assert_eq!(p.id, 3);
    assert_eq!(p.tx_hash, None);
    assert_eq!(p.notes, Some("n".to_string()));
    assert_eq!(p.timestamp, 77);
    assert_eq!(p.amount_out, t.amount_out);
    assert_eq!(trade_limit(None), 100);
    assert_eq!(trade_limit(Some(5)), 5);
}

#[test]
fn tor_state_labels() {
    assert_eq!(tor_state(false, false), "stopped");
    assert_eq!(tor_state(false, true), "stopped");
    assert_eq!(tor_state(true, false), "starting");
    assert_eq!(tor_state(true, true), "running");
}

#[test]
fn tombstone_labels() {
    assert_eq!(tombstone_label(TombstoneKind::Cancelled), "Cancelled");
    assert_eq!(tombstone_label(TombstoneKind::Filled), "Filled");
}

#[test]
fn decimals_parse_and_display_as_rust_decimal() {
    assert_eq!(Dec::parse("1.50").unwrap().to_string(), "1.50");
    assert_eq!(Dec::parse("-0.001").unwrap().to_string(), "-0.001");
    assert_eq!(Dec::parse("007").unwrap().to_string(), "7");
    assert!(Dec::parse("abc").is_none());
    assert_eq!(Dec::zero().to_string(), "0");
    let d = Dec::parse("12.345").unwrap();
    assert_eq!((d.magnitude, d.negative, d.scale), (12345, false, 3));
}

#[test]
fn salt_files_hold_32_bytes() {
    let bytes: Vec<u8> = (0u8..32).collect();
    let salt = salt_from_bytes(&bytes).expect("32 bytes");
    assert_eq!(salt.to_vec(), bytes);
    match salt_from_bytes(&bytes[..31]) {
        Err(DbError::Io(m)) => assert_eq!(m, "salt file has wrong length"),
        other => panic!("unexpected {other:?}"),
    }
    assert!(salt_from_bytes(&[0u8; 33]).is_err());
}

#[test]
fn key_pragma_statement() {
    let key = [0x11u8; 32];
    assert_eq!(key_pragma(&key), format!("PRAGMA key = \"x'{}'\";", "11".repeat(32)));
}
