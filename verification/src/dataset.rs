//! The per-record item handed to batch assembly.
//!
//! Dataset retrieval itself (fetching records by index from storage) is an
//! outside collaborator's concern; this module only fixes the shape of one
//! retrieved item.

use vstd::prelude::*;

verus! {

/// One raw game record as retrieved from the dataset, together with its
/// storage key and origin. The `board` field holds the undecoded record
/// bytes: framing prefix plus textual move list.
#[derive(Clone, Debug)]
pub struct GoItem {
    pub __key__: String,
    pub __url__: String,
    pub board: Vec<u8>,
}

impl GoItem {
    /// Number of board cells, and so of target classes: one per cell.
    pub fn output_count() -> (r: usize)
        ensures
            r == crate::sgf_parser::BOARD_SIZE * crate::sgf_parser::BOARD_SIZE,
    {
        crate::sgf_parser::BOARD_SIZE * crate::sgf_parser::BOARD_SIZE
    }
}

} // verus!
