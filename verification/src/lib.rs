//! Exact Farkas-certificate search and checking for linear arithmetic.
use vstd::prelude::*;

pub mod arith;
pub mod rational;
pub mod bignum;
pub mod counters;
pub mod rat;
pub mod types;
pub mod verify;
pub mod simplex;
pub mod tiered;
pub mod oracle;
pub mod hybrid;
pub mod json;
pub mod daemon;
pub mod bench;
pub mod soundness;
pub mod completeness;

verus! {
} // verus!
