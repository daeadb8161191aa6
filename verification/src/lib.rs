use vstd::prelude::*;

pub mod alignment;
pub mod error;
pub mod helper;
pub mod optimizer;
pub mod optimizer_context;
pub mod schedule;
pub mod simulated_annealing;
pub mod time;

verus! {

/// Adds two unsigned numbers whose sum fits in 64 bits.
pub fn add(left: u64, right: u64) -> (sum: u64)
    requires
        left + right <= u64::MAX,
    ensures
        sum == left + right,
{
    left + right
}

} // verus!
