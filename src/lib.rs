//! Extraction of subject sequences implicated by the hits of a BLAST-style
//! alignment report.
//!
//! - `text`: character-level search, trimming and word splitting.
//! - `number`, `score`: unsigned integers and exact decimal scores.
//! - `report`: query zones, hits and their fields, read from report lines.
//! - `fasta`: the sequence store and padded window extraction.
//! - `synthetic`: reports rendered from known hits, read back exactly.

pub mod fasta;
pub mod number;
pub mod report;
pub mod score;
pub mod synthetic;
pub mod text;
