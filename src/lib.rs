//! Diagnoses malformed delimited text. A lenient row splitter and cell
//! tokenizer read any text into rows of cells, keeping each cell's raw text, and
//! a single forward fold turns those rows into a report of every deviation from
//! well-formed quoting and column counts, with the set of rows that are valid.
use vstd::prelude::*;

pub mod cell;
pub mod parser;
pub mod error;
pub mod file;
pub mod csv_details;
pub mod checker;
pub mod well_formed;

verus! {

} // verus!
