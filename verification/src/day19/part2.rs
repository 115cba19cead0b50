//! In how many ways the designs can be laid out with the towels at hand.

use crate::day19::part1::add_capped;
use crate::day19::part1::capped;
use crate::day19::part1::count_ways;
use crate::day19::part1::goals_of;
use crate::day19::part1::parse;
use crate::day19::part1::towels_of;
use crate::day19::part1::ways;
use crate::day19::part1::well_formed;
use crate::day19::part1::StripColor;
use vstd::prelude::*;

verus! {

/// The number of ways to lay out each of the designs, all added up.
pub open spec fn all_ways(goals: Seq<Seq<StripColor>>, towels: Seq<Seq<StripColor>>) -> nat
    decreases goals.len(),
{
    if goals.len() == 0 {
        0
    } else {
        all_ways(goals.drop_last(), towels) + ways(goals.last(), towels)
    }
}

/// The number of ways to lay out the designs of the text with its towels,
/// all designs added up, or the largest number that fits where there are
/// more. The text must list towels and designs.
pub fn solve_day_19_part_02(input: &str) -> (r: usize)
    requires
        well_formed(input@),
    ensures
        r == capped(all_ways(goals_of(input@), towels_of(input@))),
{
    let (towels, goals) = parse(input);
    let mut sum: usize = 0;
    let mut i: usize = 0;
    while i < goals.0.len()
        invariant
            i <= goals.0.len(),
            sum == capped(all_ways(goals@.take(i as int), towels@)),
        decreases goals.0.len() - i,
    {
        proof {
            assert(goals@.take(i + 1).drop_last() =~= goals@.take(i as int));
            assert(goals@.take(i + 1).last() == goals.0[i as int]@);
        }
        let n = count_ways(&goals.0[i], &towels);
        sum = add_capped(sum, n);
        i = i + 1;
    }
    proof {
        assert(goals@.take(goals.0.len() as int) =~= goals@);
    }
    sum
}

} // verus!
