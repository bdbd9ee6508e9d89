//! Aggregation of order books streamed by several crypto exchanges: parsing of the
//! exchanges' messages, merging of their snapshots into one book that keeps the best
//! levels, and selection of the symbols that every enabled exchange trades.

pub mod config;
pub mod decimal;
pub mod exchange;
pub mod json;
pub mod merge;
pub mod order_book;
pub mod symbols;
pub mod text;

use vstd::prelude::*;

verus! {
} // verus!
