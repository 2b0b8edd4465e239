//! Pattern-based extraction of function and class blocks from source text.
pub mod balance;
pub mod blocks;
pub mod lines;
pub mod models;
pub mod parser;
