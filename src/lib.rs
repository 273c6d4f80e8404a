//! An interpreter for FRACTRAN programs: an ordered list of fractions applied
//! to an integer register until no fraction keeps it an integer.

pub mod parse;
pub mod program;
pub mod rational;
