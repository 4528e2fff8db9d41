//! Parsing and board encoding for 9x9 Go game records.
//!
//! A game record arrives as raw bytes: a fixed-length framing prefix followed
//! by an SGF-like textual move list (`;`-separated `B[xy]` / `W[xy]` tokens).
//! This crate decodes such a record into a flat 9x9 board grid plus the index
//! of the final move (withheld from the board as the prediction target), and
//! assembles batches of records while silently dropping the ones that fail to
//! parse, keeping boards and targets index-aligned.

pub mod batcher;
pub mod dataset;
pub mod sgf_parser;
