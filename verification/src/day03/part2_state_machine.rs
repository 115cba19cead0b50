//! The sum of the products that a corrupted text spells out while
//! multiplying is switched on, read by the machine that leaves the state
//! of the opening bracket when a switch closes: a word may follow a switch
//! at once.

use crate::day03::part2::run;
use crate::day03::part2::total;
use vstd::prelude::*;

verus! {

/// The sum of the products that the machine finds in `input` while
/// multiplying is switched on. The numbers and the sum have to fit in 32
/// bits.
pub fn solve_day_03_part_02_state_machine(input: &str) -> (sum: u32)
    requires
        run(input@, true) is Some,
    ensures
        sum == run(input@, true)->0.sum,
{
    total(input, true)
}

} // verus!
