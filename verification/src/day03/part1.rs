//! The sum of the products that a corrupted text still spells out.
//!
//! Only `mul(`, a number, a comma, a number and `)` with nothing in between
//! counts. The reader is a state machine that never looks back: a character
//! that does not fit sends it to its first state and is itself lost, so the
//! `m` that breaks off `mmul(1,2)` starts nothing. A product is added when
//! the character after its closing bracket is read.

use crate::util::text::is_digit;
use crate::util::text::is_digit_char;
use crate::util::text::number_up_to;
use crate::util::text::parse_up_to;
use vstd::prelude::*;

verus! {

/// How much of a multiplication the machine has read.
#[derive(Debug, Clone, Copy, PartialEq, Eq, Structural)]
pub enum MulState {
    /// Nothing yet.
    AwaitingM,
    /// The letter `m`.
    M,
    /// As far as `u`.
    U,
    /// As far as `l`.
    L,
    /// As far as the opening bracket.
    OpeningBracket,
    /// One or more digits of the left number.
    LeftNum,
    /// As far as the comma.
    Comma,
    /// One or more digits of the right number.
    RightNum,
    /// The whole of it.
    ClosingBracket,
}

/// The machine: the digits read of the two numbers, the state, and the sum
/// of the products so far.
#[derive(Debug)]
pub struct MulCache {
    pub left: Vec<char>,
    pub right: Vec<char>,
    pub mul_state: MulState,
    pub sum: u32,
}

/// The machine as a mathematical value, with a sum that has no limit.
pub ghost struct CacheView {
    pub left: Seq<char>,
    pub right: Seq<char>,
    pub mul_state: MulState,
    pub sum: nat,
}

impl View for MulCache {
    type V = CacheView;

    open spec fn view(&self) -> CacheView {
        CacheView {
            left: self.left@,
            right: self.right@,
            mul_state: self.mul_state,
            sum: self.sum as nat,
        }
    }
}

/// The number that the digits `s` denote, where it fits in 32 bits.
pub open spec fn number(s: Seq<char>) -> Option<nat> {
    number_up_to(s, u32::MAX as nat)
}

impl CacheView {
    /// The machine before the first character.
    pub open spec fn first() -> CacheView {
        CacheView { left: Seq::empty(), right: Seq::empty(), mul_state: MulState::AwaitingM, sum: 0 }
    }

    /// The machine sent back to its first state; the sum stays.
    pub open spec fn reset(self) -> CacheView {
        CacheView {
            left: Seq::empty(),
            right: Seq::empty(),
            mul_state: MulState::AwaitingM,
            sum: self.sum,
        }
    }

    /// The machine in the state `state`.
    pub open spec fn advance(self, state: MulState) -> CacheView {
        CacheView { left: self.left, right: self.right, mul_state: state, sum: self.sum }
    }

    /// The machine in the state `state` where `a` is the character `b`
    /// that was due, else sent back.
    pub open spec fn advance_on_match_or_reset(self, a: char, b: char, state: MulState) -> CacheView {
        if a == b {
            self.advance(state)
        } else {
            self.reset()
        }
    }

    /// The machine with one more digit of the left number.
    pub open spec fn left_digit(self, c: char) -> CacheView {
        CacheView {
            left: self.left.push(c),
            right: self.right,
            mul_state: MulState::LeftNum,
            sum: self.sum,
        }
    }

    /// The machine with one more digit of the right number.
    pub open spec fn right_digit(self, c: char) -> CacheView {
        CacheView {
            left: self.left,
            right: self.right.push(c),
            mul_state: MulState::RightNum,
            sum: self.sum,
        }
    }

    /// The product of the two numbers read, where both fit in 32 bits.
    pub open spec fn product(self) -> Option<nat> {
        match (number(self.left), number(self.right)) {
            (Some(l), Some(r)) => Some(l * r),
            _ => None,
        }
    }

    /// The machine after the character `c`. There is none where a number
    /// read, or the sum with the new product, does not fit in 32 bits.
    pub open spec fn after(self, c: char) -> Option<CacheView> {
        match self.mul_state {
            MulState::AwaitingM => Some(self.advance_on_match_or_reset(c, 'm', MulState::M)),
            MulState::M => Some(self.advance_on_match_or_reset(c, 'u', MulState::U)),
            MulState::U => Some(self.advance_on_match_or_reset(c, 'l', MulState::L)),
            MulState::L => Some(self.advance_on_match_or_reset(c, '(', MulState::OpeningBracket)),
            MulState::OpeningBracket => Some(
                if is_digit(c) {
                    self.left_digit(c)
                } else {
                    self.reset()
                },
            ),
            MulState::LeftNum => Some(
                if is_digit(c) {
                    self.left_digit(c)
                } else if c == ',' {
                    self.advance(MulState::Comma)
                } else {
                    self.reset()
                },
            ),
            MulState::Comma => Some(
                if is_digit(c) {
                    self.right_digit(c)
                } else {
                    self.reset()
                },
            ),
            MulState::RightNum => Some(
                if is_digit(c) {
                    self.right_digit(c)
                } else if c == ')' {
                    self.advance(MulState::ClosingBracket)
                } else {
                    self.reset()
                },
            ),
            MulState::ClosingBracket => match self.product() {
                Some(p) => if self.sum + p <= u32::MAX {
                    Some(
                        CacheView {
                            left: Seq::empty(),
                            right: Seq::empty(),
                            mul_state: if c == 'm' {
                                MulState::M
                            } else {
                                MulState::AwaitingM
                            },
                            sum: self.sum + p,
                        },
                    )
                } else {
                    None
                },
                None => None,
            },
        }
    }
}

/// The machine after all characters of `input`, where it gets that far.
pub open spec fn run(input: Seq<char>) -> Option<CacheView>
    decreases input.len(),
{
    if input.len() == 0 {
        Some(CacheView::first())
    } else {
        match run(input.drop_last()) {
            Some(s) => s.after(input.last()),
            None => None,
        }
    }
}

/// A machine that gets through a text gets through each beginning of it.
pub proof fn lemma_run_prefix(input: Seq<char>, k: int)
    requires
        0 <= k <= input.len(),
        run(input) is Some,
    ensures
        run(input.take(k)) is Some,
    decreases input.len(),
{
    if k < input.len() {
        lemma_run_prefix(input.drop_last(), k);
        assert(input.drop_last().take(k) =~= input.take(k));
    } else {
        assert(input.take(k) =~= input);
    }
}

impl MulCache {
    /// The machine before the first character.
    pub fn new() -> (r: MulCache)
        ensures
            r@ == CacheView::first(),
    {
        MulCache { left: Vec::new(), right: Vec::new(), mul_state: MulState::AwaitingM, sum: 0 }
    }

    /// Sends the machine back to its first state; the sum stays.
    pub fn reset(self) -> (r: MulCache)
        ensures
            r@ == self@.reset(),
    {
        MulCache {
            left: Vec::new(),
            right: Vec::new(),
            mul_state: MulState::AwaitingM,
            sum: self.sum,
        }
    }

    /// Puts the machine in the state `state`.
    pub fn advance(self, state: MulState) -> (r: MulCache)
        ensures
            r@ == self@.advance(state),
    {
        MulCache { left: self.left, right: self.right, mul_state: state, sum: self.sum }
    }

    /// Puts the machine in the state `state` where `a` is the character
    /// `b` that was due, else sends it back.
    pub fn advance_on_match_or_reset(self, a: char, b: char, state: MulState) -> (r: MulCache)
        ensures
            r@ == self@.advance_on_match_or_reset(a, b, state),
    {
        if a == b {
            self.advance(state)
        } else {
            self.reset()
        }
    }

    /// Takes one more digit of the left number.
    fn left_digit(self, c: char) -> (r: MulCache)
        ensures
            r@ == self@.left_digit(c),
    {
        let mut left = self.left;
        left.push(c);
        MulCache { left, right: self.right, mul_state: MulState::LeftNum, sum: self.sum }
    }

    /// Takes one more digit of the right number.
    fn right_digit(self, c: char) -> (r: MulCache)
        ensures
            r@ == self@.right_digit(c),
    {
        let mut right = self.right;
        right.push(c);
        MulCache { left: self.left, right, mul_state: MulState::RightNum, sum: self.sum }
    }

    /// The product of the two numbers read.
    fn product(&self) -> (p: u64)
        requires
            self@.product() is Some,
        ensures
            p == self@.product()->0,
    {
        let l: u128 = parse_up_to(&self.left, 0xFFFF_FFFF).unwrap();
        let r: u128 = parse_up_to(&self.right, 0xFFFF_FFFF).unwrap();
        assert(l * r <= 0xFFFF_FFFF * 0xFFFF_FFFF) by (nonlinear_arith)
            requires
                l <= 0xFFFF_FFFF,
                r <= 0xFFFF_FFFF,
        ;
        (l * r) as u64
    }

    /// Reads the character `c`.
    pub fn step(self, c: char) -> (r: MulCache)
        requires
            self@.after(c) is Some,
        ensures
            r@ == self@.after(c)->0,
    {
        match self.mul_state {
            MulState::AwaitingM => self.advance_on_match_or_reset(c, 'm', MulState::M),
            MulState::M => self.advance_on_match_or_reset(c, 'u', MulState::U),
            MulState::U => self.advance_on_match_or_reset(c, 'l', MulState::L),
            MulState::L => self.advance_on_match_or_reset(c, '(', MulState::OpeningBracket),
            MulState::OpeningBracket => if is_digit_char(c) {
                self.left_digit(c)
            } else {
                self.reset()
            },
            MulState::LeftNum => if is_digit_char(c) {
                self.left_digit(c)
            } else if c == ',' {
                self.advance(MulState::Comma)
            } else {
                self.reset()
            },
            MulState::Comma => if is_digit_char(c) {
                self.right_digit(c)
            } else {
                self.reset()
            },
            MulState::RightNum => if is_digit_char(c) {
                self.right_digit(c)
            } else if c == ')' {
                self.advance(MulState::ClosingBracket)
            } else {
                self.reset()
            },
            MulState::ClosingBracket => {
                let p: u64 = self.product();
                let sum: u32 = (self.sum as u64 + p) as u32;
                MulCache {
                    left: Vec::new(),
                    right: Vec::new(),
                    mul_state: if c == 'm' {
                        MulState::M
                    } else {
                        MulState::AwaitingM
                    },
                    sum,
                }
            },
        }
    }
}

/// The sum of the products that the machine finds in `input`. The numbers
/// and the sum have to fit in 32 bits.
pub fn solve_day_03_part_01(input: &str) -> (sum: u32)
    requires
        run(input@) is Some,
    ensures
        sum == run(input@)->0.sum,
{
    let mut cache = MulCache::new();
    let chars = input.chars();
    for c in it: chars
        invariant
            it.seq() == input@,
            run(input@) is Some,
            run(it.seq().take(it.index())) == Some(cache@),
    {
        proof {
            let k = it.index();
            lemma_run_prefix(input@, k + 1);
            assert(input@.take(k + 1).drop_last() =~= input@.take(k));
        }
        cache = cache.step(c);
    }
    proof {
        assert(input@.take(input@.len() as int) =~= input@);
    }
    cache.sum
}

} // verus!
