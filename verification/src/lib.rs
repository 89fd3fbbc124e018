//! Differential graded algebras: the integer side of graded vector spaces, free graded
//! algebras and their products, binomial counts of forms, Hodge and Čech dimensions, Betti
//! numbers of complexes, Massey degrees and the bookkeeping of the derived category.

use vstd::prelude::*;

pub mod applications;
pub mod bits;
pub mod cohomology;
pub mod derived;
pub mod graded;
pub mod massey;
pub mod minimal_model;

verus! {
} // verus!
