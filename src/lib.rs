//! Splits a delimited table into a fixed number of pieces of roughly equal
//! size, keeping every row that shares a group key (its first field) in the
//! same piece.
//!
//! Groups are taken in the order in which their keys first appear in the
//! input, so the same input always gives the same pieces.

pub mod group;
pub mod assign;
pub mod table;
pub mod split;
pub mod laws;
