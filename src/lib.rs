//! A pension ledger: per-identity contribution balances, per-identity plan
//! allocations and a pool total, with a fixed set of operations, a binary
//! record format and an instruction decoder.

pub mod identity;
pub mod instruction;
pub mod ledger;
pub mod codec;
pub mod program;
