//! Calibrations: numbers that operators, put between them and applied
//! from left to right, may or may not combine into a target.

use crate::day11::count_digits;
use crate::day11::digits;
use crate::day11::ten_to;
use crate::util::text::chars_of;
use crate::util::text::lines;
use crate::util::text::number_up_to;
use crate::util::text::parse_up_to;
use crate::util::text::split_lines;
use crate::util::text::split_on;
use crate::util::text::split_seq;
use crate::util::text::split_words;
use crate::util::text::views;
use crate::util::text::words;
use vstd::prelude::*;

verus! {

/// What may stand between two numbers.
#[derive(Debug, Clone, Copy, PartialEq, Eq, Structural)]
pub enum Operator {
    Multiply,
    Add,
    Concat,
}

/// The number that the digits of `left` with the digits of `right` behind
/// them denote.
pub open spec fn glue(left: nat, right: nat) -> nat {
    left * ten_to(digits(right)) + right
}

impl Operator {
    /// What the operator makes of two numbers.
    pub open spec fn applied(self, left: nat, right: nat) -> nat {
        match self {
            Operator::Multiply => left * right,
            Operator::Add => left + right,
            Operator::Concat => glue(left, right),
        }
    }

    /// What the operator makes of two numbers, or `None` where that does
    /// not fit.
    pub fn checked_apply(&self, left: usize, right: usize) -> (r: Option<usize>)
        ensures
            match r {
                Some(v) => v == self.applied(left as nat, right as nat),
                None => self.applied(left as nat, right as nat) > usize::MAX,
            },
    {
        match self {
            Operator::Multiply => left.checked_mul(right),
            Operator::Add => left.checked_add(right),
            Operator::Concat => {
                let d = count_digits(right);
                let mut shifted: usize = left;
                let mut i: u32 = 0;
                proof {
                    assert(left * ten_to(0) == left) by (nonlinear_arith)
                        requires
                            ten_to(0) == 1,
                    ;
                }
                while i < d
                    invariant
                        i <= d,
                        d == digits(right as nat),
                        *self == Operator::Concat,
                        shifted == left * ten_to(i as nat),
                    decreases d - i,
                {
                    proof {
                        lemma_ten_to_more(left as nat, i as nat, d as nat);
                        assert(left * ten_to((i + 1) as nat) == (left * ten_to(i as nat)) * 10)
                            by (nonlinear_arith)
                            requires
                                ten_to((i + 1) as nat) == 10 * ten_to(i as nat),
                        ;
                    }
                    shifted = match shifted.checked_mul(10) {
                        Some(s) => s,
                        None => {
                            return None;
                        },
                    };
                    i = i + 1;
                }
                shifted.checked_add(right)
            },
        }
    }

    /// What the operator makes of two numbers. The result must fit.
    pub fn apply(&self, left: usize, right: usize) -> (r: usize)
        requires
            self.applied(left as nat, right as nat) <= usize::MAX,
        ensures
            r == self.applied(left as nat, right as nat),
    {
        match self.checked_apply(left, right) {
            Some(v) => v,
            None => vstd::pervasive::unreached(),
        }
    }
}

/// A number with more digits shifted is no smaller.
pub proof fn lemma_ten_to_more(left: nat, i: nat, d: nat)
    requires
        i < d,
    ensures
        left * ten_to((i + 1) as nat) <= left * ten_to(d),
        ten_to((i + 1) as nat) == 10 * ten_to(i),
    decreases d - i,
{
    if i + 1 < d {
        lemma_ten_to_more(left, i + 1, d);
        assert(left * ten_to((i + 1) as nat) <= left * ten_to((i + 2) as nat)) by (nonlinear_arith)
            requires
                ten_to((i + 2) as nat) == 10 * ten_to((i + 1) as nat),
        ;
    }
}

/// A calibration: the target and the numbers to combine.
#[derive(Debug)]
pub struct Calibration {
    pub target: usize,
    pub parts: Vec<usize>,
}

/// Whether the numbers from the place `k` on can be combined with the
/// value `a` so far into the target: behind the last number the value must
/// be the target; a value above the target is given up; and else one of
/// the operators, put before the next number, must lead on to the target.
pub open spec fn meets(parts: Seq<usize>, target: nat, include_concat: bool, k: int, a: nat) -> bool
    decreases parts.len() - k,
{
    if k < 0 || k >= parts.len() {
        a == target
    } else if a > target {
        false
    } else {
        meets(parts, target, include_concat, k + 1, a + parts[k] as nat) || meets(
            parts,
            target,
            include_concat,
            k + 1,
            a * parts[k] as nat,
        ) || (include_concat && meets(parts, target, include_concat, k + 1, glue(a, parts[k] as nat)))
    }
}

/// Whether the numbers can be combined into the target. There must be a
/// first number.
pub open spec fn can_meet(parts: Seq<usize>, target: nat, include_concat: bool) -> bool {
    parts.len() > 0 && meets(parts, target, include_concat, 1, parts[0] as nat)
}

/// A value above the target never leads to it.
pub proof fn lemma_above_never_meets(
    parts: Seq<usize>,
    target: nat,
    include_concat: bool,
    k: int,
    a: nat,
)
    requires
        a > target,
    ensures
        !meets(parts, target, include_concat, k, a),
{
}

impl Calibration {
    /// Whether the numbers from the place `k` on can be combined with the
    /// value `a` so far into the target.
    pub fn search(&self, include_concat: bool, k: usize, a: usize) -> (r: bool)
        requires
            1 <= k <= self.parts.len(),
        ensures
            r == meets(self.parts@, self.target as nat, include_concat, k as int, a as nat),
        decreases self.parts.len() - k,
    {
        if k >= self.parts.len() {
            return a == self.target;
        }
        if a > self.target {
            return false;
        }
        let next = self.parts[k];
        let ghost (p, t) = (self.parts@, self.target as nat);
        let by_add = match Operator::Add.checked_apply(a, next) {
            Some(v) => self.search(include_concat, k + 1, v),
            None => {
                proof {
                    lemma_above_never_meets(p, t, include_concat, k + 1, (a + next) as nat);
                }
                false
            },
        };
        if by_add {
            return true;
        }
        let by_mul = match Operator::Multiply.checked_apply(a, next) {
            Some(v) => self.search(include_concat, k + 1, v),
            None => {
                proof {
                    lemma_above_never_meets(p, t, include_concat, k + 1, (a * next) as nat);
                }
                false
            },
        };
        if by_mul {
            return true;
        }
        if !include_concat {
            return false;
        }
        match Operator::Concat.checked_apply(a, next) {
            Some(v) => self.search(include_concat, k + 1, v),
            None => {
                proof {
                    lemma_above_never_meets(p, t, include_concat, k + 1, glue(a as nat, next as nat));
                }
                false
            },
        }
    }

    /// Whether the numbers can be combined into the target, with or
    /// without the operator that glues digits. There must be a first
    /// number.
    pub fn check_if_can_meet_target(&self, include_concat: bool) -> (r: bool)
        requires
            self.parts.len() > 0,
        ensures
            r == can_meet(self.parts@, self.target as nat, include_concat),
    {
        self.search(include_concat, 1, self.parts[0])
    }

    /// Reads a calibration: the target, a colon, and the numbers with
    /// white space between them. `None` where the line has no colon or a
    /// part is no number that fits.
    pub fn from_line(line: &Vec<char>) -> (r: Option<Calibration>)
        ensures
            match r {
                Some(c) => calibration_of(line@) == Some(
                    CalibrationView { target: c.target, parts: c.parts@ },
                ),
                None => calibration_of(line@) is None,
            },
    {
        let sides = split_on(line, ':');
        if sides.len() < 2 {
            return None;
        }
        proof {
            assert(views(sides@)[0] == sides[0]@);
            assert(views(sides@)[1] == sides[1]@);
        }
        let target = match parse_up_to(&sides[0], usize::MAX as u128) {
            Some(t) => t as usize,
            None => {
                return None;
            },
        };
        let ws = words(&sides[1]);
        let mut parts: Vec<usize> = Vec::new();
        let mut i: usize = 0;
        while i < ws.len()
            invariant
                i <= ws.len(),
                views(sides@) == split_seq(line@, ':'),
                sides.len() >= 2,
                number_up_to(sides[0]@, usize::MAX as nat) == Some(target as nat),
                views(ws@) == split_words(sides[1]@),
                crate::day11::numbers_of(views(ws@).take(i as int)) == Some(parts@),
            decreases ws.len() - i,
        {
            proof {
                assert(views(ws@).take(i + 1).drop_last() =~= views(ws@).take(i as int));
                assert(views(ws@).take(i + 1).last() == ws[i as int]@);
                assert(views(sides@)[0] == sides[0]@);
                assert(views(sides@)[1] == sides[1]@);
            }
            match parse_up_to(&ws[i], usize::MAX as u128) {
                Some(n) => {
                    parts.push(n as usize);
                },
                None => {
                    proof {
                        if crate::day11::numbers_of(views(ws@)) is Some {
                            crate::day11::lemma_numbers_of_prefix(views(ws@), i + 1);
                        }
                    }
                    return None;
                },
            }
            i = i + 1;
        }
        proof {
            assert(views(ws@).take(ws.len() as int) =~= views(ws@));
        }
        Some(Calibration { target, parts })
    }
}

/// A calibration as plain values.
pub ghost struct CalibrationView {
    pub target: usize,
    pub parts: Seq<usize>,
}

/// The target and the numbers of a line: the target stands before the
/// first colon, and the numbers are the words between the first and the
/// second colon.
pub open spec fn calibration_of(line: Seq<char>) -> Option<CalibrationView> {
    let sides = split_seq(line, ':');
    if sides.len() >= 2 && number_up_to(sides[0], usize::MAX as nat) is Some
        && crate::day11::numbers_of(split_words(sides[1])) is Some {
        Some(
            CalibrationView {
                target: number_up_to(sides[0], usize::MAX as nat)->0 as usize,
                parts: crate::day11::numbers_of(split_words(sides[1]))->0,
            },
        )
    } else {
        None
    }
}

/// Whether every line is a calibration with at least one number.
pub open spec fn all_calibrations(rows: Seq<Seq<char>>) -> bool {
    forall|i: int|
        0 <= i < rows.len() ==> calibration_of(#[trigger] rows[i]) is Some && calibration_of(
            rows[i],
        )->0.parts.len() > 0
}

/// The targets of the calibrations that can be met, added up.
pub open spec fn met_targets(rows: Seq<Seq<char>>, include_concat: bool) -> nat
    decreases rows.len(),
{
    if rows.len() == 0 {
        0
    } else {
        let c = calibration_of(rows.last())->0;
        met_targets(rows.drop_last(), include_concat) + if can_meet(
            c.parts,
            c.target as nat,
            include_concat,
        ) {
            c.target as nat
        } else {
            0nat
        }
    }
}

/// The targets of the first calibrations add up to no more than those of
/// all.
pub proof fn lemma_met_targets_grow(rows: Seq<Seq<char>>, include_concat: bool, k: int)
    requires
        0 <= k <= rows.len(),
    ensures
        met_targets(rows.take(k), include_concat) <= met_targets(rows, include_concat),
    decreases rows.len(),
{
    if k == rows.len() {
        assert(rows.take(k) =~= rows);
    } else {
        lemma_met_targets_grow(rows.drop_last(), include_concat, k);
        assert(rows.drop_last().take(k) =~= rows.take(k));
    }
}

/// The sum of the targets of the calibrations that can be met: by adding
/// and multiplying, and, with `include_concat`, by gluing digits too.
/// Every line must be a calibration with at least one number, and the sum
/// must fit.
pub fn solve_day_07(input: String, include_concat: bool) -> (r: usize)
    requires
        all_calibrations(split_lines(input@)),
        met_targets(split_lines(input@), include_concat) <= usize::MAX,
    ensures
        r == met_targets(split_lines(input@), include_concat),
{
    let chars = chars_of(input.as_str());
    let rows = lines(&chars);
    let ghost all = split_lines(input@);
    let mut sum: usize = 0;
    let mut i: usize = 0;
    while i < rows.len()
        invariant
            i <= rows.len(),
            all == views(rows@),
            all_calibrations(all),
            met_targets(all, include_concat) <= usize::MAX,
            sum == met_targets(all.take(i as int), include_concat),
        decreases rows.len() - i,
    {
        proof {
            assert(all.take(i + 1).drop_last() =~= all.take(i as int));
            assert(all.take(i + 1).last() == rows[i as int]@);
            assert(calibration_of(all[i as int]) is Some);
            lemma_met_targets_grow(all, include_concat, i + 1);
        }
        let c = match Calibration::from_line(&rows[i]) {
            Some(c) => c,
            None => vstd::pervasive::unreached(),
        };
        if c.check_if_can_meet_target(include_concat) {
            sum = sum + c.target;
        }
        i = i + 1;
    }
    proof {
        assert(all.take(rows.len() as int) =~= all);
    }
    sum
}

} // verus!
