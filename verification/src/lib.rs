//! A small permissioned ledger: blocks of transfers between named accounts,
//! agreed on by a three-phase PBFT round (pre-prepare, prepare, commit).

pub mod config;
pub mod utils;
pub mod ledger;
pub mod consensus;
pub mod engine;
