//! Verified core of a row-group decoding pipeline for columnar files.
//!
//! The library models which rows of a row group survive filtering as a
//! run-length selection (`skip n` / `select n` runs) and proves the
//! selection algebra, the folding of predicate masks, the offset/limit
//! budget arithmetic, and the pull-based stream state machine. Fetching
//! bytes from storage and decoding them into columnar batches are left to
//! unverified adapters around this crate.

pub mod adapter;
pub mod evaluate;
pub mod factory;
pub mod selection;
pub mod stream;
