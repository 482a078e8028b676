//! An oracle relay that reconciles cross-chain transfer reports.
//!
//! Independent node operators each witness the same cross-chain transfer and
//! report it to a per-operator receptacle store.  A central coordinator polls
//! every receptacle, serializes each operator's version of a pending transfer
//! to a canonical byte key, tallies the keys, and — once a key gathers as many
//! votes as there are registered operators — decodes it and emits a settlement
//! instruction, then orders every receptacle to discard the transfer.

pub mod chains;
pub mod codec;
pub mod consensus;
pub mod contract;
pub mod decode;
pub mod errors;
pub mod receptacle;
pub mod tokens;
pub mod types;
