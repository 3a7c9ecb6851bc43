//! Parsing of LCOV coverage traces into per-file reports, verified against a
//! line-by-line model of the format.
use vstd::prelude::*;

pub mod coverage;
pub mod laws;
pub mod lcov;
pub mod text;
pub mod token_map;

verus! {

} // verus!
