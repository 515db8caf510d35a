use vstd::prelude::*;

pub mod addition;
pub mod automaton;
pub mod convert;
pub mod bigint;
pub mod determinize;
pub mod fa;
pub mod leading_zeros;
pub mod logicalops;
pub mod minimize;
pub mod morphism;
pub mod number_system;
pub mod numsys;
pub mod product;
pub mod quotient;
pub mod text;
pub mod trim;

verus! {
} // verus!
