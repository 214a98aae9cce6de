//! Core of a proof-of-stake validator runtime: a per-validator vote tower
//! with bounded lockouts, epoch credits and slashing detection, and a
//! page-addressed parallel transaction engine with balance-conservation
//! checks.

pub mod accounts;
pub mod alloc_pages;
pub mod codec;
pub mod errors;
pub mod fast_hasher;
pub mod keys;
pub mod lockout;
pub mod page;
pub mod page_table;
pub mod slashing;
pub mod storage_program;
pub mod vote_codec;
pub mod vote_state;
