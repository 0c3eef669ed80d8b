//! Counting articles per category over a date range: the rules behind the
//! `catcount` program, each with its contract.

mod buckets;
pub mod counting;
pub mod csv;
pub mod groups;
pub mod json;
pub mod label;
pub mod laws;
pub mod moment;
pub mod pipeline;
pub mod rank;
pub mod select;
pub mod table;
pub mod tally;
pub mod text;
pub mod tunnel;
