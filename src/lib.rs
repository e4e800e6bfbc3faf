use vstd::prelude::*;

pub mod bignum;
pub mod bits;
pub mod board;
pub mod difficulty;
pub mod scenarios;
pub mod seq_facts;
pub mod agent;
pub mod deductions;
pub mod guesses;
pub mod record;

verus! {

} // verus!
