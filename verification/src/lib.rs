//! Verified core of a peer-to-peer decentralized-exchange desktop client:
//! vector clocks, signed orders, a CRDT order book and a deterministic
//! price-time priority matching engine.

pub mod text;
pub mod clock;
pub mod decimal;
pub mod hexcode;
pub mod keyed;
pub mod order;
pub mod orderbook;
pub mod matcher;
pub mod crypto;
pub mod db;
pub mod commands;
pub mod relay;
