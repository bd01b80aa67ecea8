//! The decisions of a simplified-payment-verification node: which headers and
//! blocks to ask for, what a connected block does to the wallet, which peers
//! to dial.

pub mod batch_laws;
pub mod chain;
pub mod digest;
pub mod download;
pub mod download_laws;
pub mod echo;
pub mod ledger;
pub mod ledger_laws;
pub mod message_laws;
pub mod peers;
pub mod random;
pub mod round_laws;
pub mod spv;
pub mod told_laws;
pub mod tracker;
pub mod transition;
pub mod types;
pub mod walk;
pub mod wallet_laws;
