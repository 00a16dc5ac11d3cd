//! Verified core of a spectral memory graph over short text records.
pub mod embed;
pub mod error;
pub mod filter;
pub mod links;
pub mod rank;
pub mod segment;
pub mod structure;
pub mod temporal;
pub mod text;
pub mod tools;
pub mod turn;
