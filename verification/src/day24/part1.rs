//! The number that the machine puts out on its `z` wires.

use crate::day24::part2::begins;
use crate::day24::part2::depth_of;
use crate::day24::part2::listed;
use crate::day24::part2::value;
use crate::day24::part2::wired;
use crate::day24::part2::Machine;
use crate::day24::part2::WireView;
use crate::util::text::number_up_to;
use crate::util::text::parse_up_to;
use crate::util::text::slice_of;
use crate::util::text::split_lines;
use vstd::prelude::*;

verus! {

/// Two to the power of `e`.
pub open spec fn two_to(e: nat) -> nat
    decreases e,
{
    if e == 0 {
        1
    } else {
        2 * two_to((e - 1) as nat)
    }
}

/// Two to the power of `e`.
pub fn power_of_two(e: u32) -> (r: u64)
    requires
        e < 64,
    ensures
        r == two_to(e as nat),
{
    let mut r: u64 = 1;
    let mut i: u32 = 0;
    while i < e
        invariant
            i <= e < 64,
            r == two_to(i as nat),
        decreases e - i,
    {
        proof {
            lemma_two_to_grows((i + 1) as nat, 63);
            lemma_two_to_63();
        }
        r = r * 2;
        i = i + 1;
    }
    r
}

/// A larger exponent gives no smaller power.
pub proof fn lemma_two_to_grows(e: nat, f: nat)
    requires
        e <= f,
    ensures
        two_to(e) <= two_to(f),
    decreases f - e,
{
    if e < f {
        lemma_two_to_grows(e, (f - 1) as nat);
    }
}

/// The 63rd power of two.
pub proof fn lemma_two_to_63()
    ensures
        two_to(63) == 0x8000_0000_0000_0000,
{
    reveal_with_fuel(two_to, 64);
}

/// The binary place that the name of an output wire gives: the number
/// behind its first character, which must be below 64.
pub open spec fn place_of(name: Seq<char>) -> Option<nat> {
    number_up_to(name.skip(1), 63)
}

/// What the output wires among the first `k` names of `order` add up to:
/// each wire whose name begins with `z` and whose value is 1 adds two to
/// the power of its place. `None` where such a wire has no value or no
/// place.
pub open spec fn output_sum(
    m: Map<Seq<char>, WireView>,
    order: Seq<Seq<char>>,
    k: nat,
    depth: nat,
) -> Option<nat>
    decreases k,
{
    if k == 0 || k > order.len() {
        Some(0)
    } else {
        let name = order[k - 1];
        match output_sum(m, order, (k - 1) as nat, depth) {
            None => None,
            Some(sum) => if !begins(name, 'z') {
                Some(sum)
            } else {
                match (value(m, name, depth), place_of(name)) {
                    (Some(v), Some(p)) => Some(
                        if v {
                            sum + two_to(p)
                        } else {
                            sum
                        },
                    ),
                    _ => None,
                }
            },
        }
    }
}

/// Where all output wires add up to something, so do the first of them,
/// and to no more.
pub proof fn lemma_output_sum_grows(
    m: Map<Seq<char>, WireView>,
    order: Seq<Seq<char>>,
    j: nat,
    k: nat,
    depth: nat,
)
    requires
        j <= k <= order.len(),
        output_sum(m, order, k, depth) is Some,
    ensures
        output_sum(m, order, j, depth) is Some,
        output_sum(m, order, j, depth)->0 <= output_sum(m, order, k, depth)->0,
    decreases k - j,
{
    if j < k {
        lemma_output_sum_grows(m, order, j, (k - 1) as nat, depth);
    }
}

/// The number that the machine of the description puts out: what its
/// output wires add up to. The text must describe a machine; every wire
/// whose name begins with `z` must have a value and a place below 64, and
/// the number must fit 64 bits.
pub fn solve_day_24_part_01(input: &str) -> (r: u64)
    requires
        wired(split_lines(input@)) is Some,
        output_sum(
            wired(split_lines(input@))->0,
            listed(split_lines(input@)),
            listed(split_lines(input@)).len(),
            depth_of(listed(split_lines(input@)).len()),
        ) is Some,
        output_sum(
            wired(split_lines(input@))->0,
            listed(split_lines(input@)),
            listed(split_lines(input@)).len(),
            depth_of(listed(split_lines(input@)).len()),
        )->0 <= u64::MAX,
    ensures
        Some(r as nat) == output_sum(
            wired(split_lines(input@))->0,
            listed(split_lines(input@)),
            listed(split_lines(input@)).len(),
            depth_of(listed(split_lines(input@)).len()),
        ),
{
    let machine = match Machine::parse(input) {
        Some(m) => m,
        None => vstd::pervasive::unreached(),
    };
    let names = machine.wires();
    proof {
        machine.lemma_names();
    }
    let ghost m = machine@;
    let ghost order = machine.names();
    let n = names.len();
    let fuel: usize = if n < usize::MAX {
        n + 1
    } else {
        n
    };
    let mut sum: u64 = 0;
    let mut k: usize = 0;
    while k < n
        invariant
            k <= n,
            n == names.len(),
            fuel == depth_of(n as nat),
            machine.wf(),
            m == machine@,
            order == machine.names(),
            crate::util::text::views(names@) == order,
            output_sum(m, order, n as nat, fuel as nat) is Some,
            output_sum(m, order, n as nat, fuel as nat)->0 <= u64::MAX,
            output_sum(m, order, k as nat, fuel as nat) == Some(sum as nat),
        decreases n - k,
    {
        let name = &names[k];
        proof {
            assert(order[k as int] == name@);
            lemma_output_sum_grows(m, order, (k + 1) as nat, n as nat, fuel as nat);
        }
        if name.len() > 0 && name[0] == 'z' {
            let v = match machine.evaluate(name, fuel) {
                Some(v) => v,
                None => vstd::pervasive::unreached(),
            };
            let rest = slice_of(name, 1, name.len());
            proof {
                assert(rest@ == name@.skip(1));
            }
            let p = match parse_up_to(&rest, 63) {
                Some(p) => p,
                None => vstd::pervasive::unreached(),
            };
            if v {
                sum = sum + power_of_two(p as u32);
            }
        }
        k = k + 1;
    }
    sum
}

} // verus!
