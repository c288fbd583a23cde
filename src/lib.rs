//! Compiler and trace validator for a small arithmetization language over the BN254 scalar field.
use vstd::prelude::*;

pub mod check;
pub mod codetyper;
pub mod column;
pub mod compiler;
pub mod expr;
pub mod field;
pub mod names;
pub mod parser;
pub mod text;
pub mod trace;
pub mod validate;

verus! {

} // verus!
