//! A ledger program core: an instruction codec, a balance ledger with its
//! byte encoding, account validation and the deposit / withdraw decisions.
pub mod error;
pub mod instruction;
pub mod state;
pub mod utils;
pub mod processor;
