//! What can stop a run.

use vstd::prelude::*;

verus! {

/// Why no output could be produced.
#[derive(Debug)]
pub enum GenError {
    /// The input table could not be read as a delimited table.
    Input(csv::Error),
    /// Rows were requested but there is no city to draw from.
    NoCities,
}

} // verus!
