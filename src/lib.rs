//! A flat-file record store for a small shop: a product inventory kept as a
//! sorted array of fixed-width records, and a sales ledger kept as a sequence
//! of length-prefixed records. Both files end with an 8-byte counter holding
//! the last id or code handed out.
//!
//! The functions here work on the byte image of each file; reading and
//! writing the files themselves is left to the caller.

pub mod errors;
pub mod date;
pub mod model;
pub mod codec;
pub mod product_store;
pub mod ledger_layout;
pub mod sale_ledger;
pub mod validation;
pub mod laws;
