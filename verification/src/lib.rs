//! An interactive personal ledger: signed amounts in cents, categories,
//! dates and descriptions, with a keyboard-driven entry state machine,
//! derived aggregates, and a textual persistence format.

pub mod aggregate;
pub mod amount;
pub mod app;
pub mod models;
pub mod storage;
mod clock;
mod text;
