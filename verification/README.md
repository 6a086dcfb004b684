# yonodex

The verified core of a peer-to-peer exchange node: signed orders, vector
clocks, a CRDT order book and a deterministic price-time priority matching
engine, with the key handling of its encrypted local database.

- `src/` — the library, written in Verus. Every function carries a contract
  that Verus proves; the properties that span functions are public proof
  functions named `law_*`.
  - `clock` — vector clocks in canonical (sorted) form: tick, merge, compare.
  - `order` — orders, their canonical signable bytes (escaped, so that the
    bytes determine every field), Ed25519 signing and verification.
  - `orderbook` — the CRDT order book: local and remote orders, fills,
    tombstones, cancellations that arrive before their order, garbage
    collection, merging replicas.
  - `matcher` — price-time priority matching, specified as a run over the
    two sides of the book in priority order.
  - `crypto`, `db` — Argon2id key derivation, the signing identity, nonce
    replay checks and the database's errors.
  - `commands`, `relay` — the payloads the front end exchanges, and the
    decisions taken on what the network delivers.
  - `decimal`, `hexcode`, `text`, `keyed` — decimals (through
    `rust_decimal`), hex text, string order and rendering, keyed lists.
- `tests/` — tests of the library.
- `app/` — the node around the library: SQLCipher storage, the Tor daemon,
  the gossip relay process and the command handlers.
