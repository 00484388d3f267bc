//! A recipe macro calculator: an ingredient ledger with per-serving
//! protein/fat/net-carb quantities, derived totals and a protein-to-energy
//! ratio, and a codec that turns a recipe into a URL-safe token and back.
//!
//! Quantities are decimal fixed-point numbers: a value is a count of
//! [`decimal::UNITS_PER_GRAM`]-ths of a gram, so the two display decimals
//! are always exact.

pub mod bridge;
pub mod codec;
pub mod decimal;
pub mod json;
pub mod ledger;
pub mod quantity;
pub mod text;
pub mod totals;
