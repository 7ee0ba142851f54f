//! Idlecoin: the rules of an idle mining game played over a plain TCP
//! connection. Wallets hold coins, miners attached to a wallet earn coins
//! every second, and players may buy upgrades with typed commands.
//!
//! This crate holds the game's rules; the server around them (sockets,
//! clock, persistence, terminal output) lives in the application crate.

pub mod wallet;
pub mod miner;
pub mod commands;
pub mod login;
pub mod server;
mod random;
