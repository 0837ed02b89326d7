//! The comparison of the main sort, with positions that wrap once they pass the end.
use vstd::prelude::*;
use crate::sort::gtu::{gtu, gtu_ready, gtu_with, mode_of, WrapMode};

verus! {

/// Whether the rotation at `i1`
/// is greater than the one at `i2`; positions past the end wrap round after each round
/// of eight, and each round costs one unit of the budget.
pub fn main_gtu(i1: i32, i2: i32, block_data: &[u16], quadrant: &[u16], end: usize, budget: &mut i32) -> (res: bool)
    requires
        gtu_ready(block_data@, quadrant@, end as int, i1 as int, i2 as int, *old(budget) as int),
    ensures
        res == gtu(block_data@, quadrant@, end as int, i1 as int, i2 as int, WrapMode::Above).0,
        *final(budget) == *old(budget) - gtu(
            block_data@,
            quadrant@,
            end as int,
            i1 as int,
            i2 as int,
            WrapMode::Above,
        ).1,
{
    assert(mode_of(0) == WrapMode::Above);
    gtu_with(i1 as usize, i2 as usize, block_data, quadrant, end, budget, 0)
}

} // verus!
