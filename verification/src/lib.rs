//! Core logic of a small emoji-picker: fuzzy subsequence scoring of emoji
//! names, stable ranking of a catalog against a live query, single-line
//! search-buffer sanitizing with submit detection, and the select/cancel
//! decision that ends a picking session.

pub mod input;
pub mod rank;
pub mod score;
pub mod session;
