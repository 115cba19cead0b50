//! The sum of the products that a corrupted text spells out while
//! multiplying is switched on.
//!
//! Besides `mul(`, a number, a comma, a number and `)`, the text holds the
//! switches `do()` and `don't()`. The reader is a state machine that looks
//! at each character once. A character that does not fit starts a new word
//! where it is `m` or `d`, and sends the machine to its first state
//! otherwise. A product is added when its closing bracket is read.
//!
//! The machine comes in two forms. In the first a switch leaves it in the
//! state of the opening bracket, where any character but another closing
//! bracket sends it back, so that an `m` or a `d` right after a switch is
//! lost. In the second form it leaves that state when a switch closes.

use crate::util::text::is_digit;
use crate::util::text::is_digit_char;
use crate::util::text::number_up_to;
use crate::util::text::parse_up_to;
use vstd::prelude::*;

verus! {

/// The words that end in an opening bracket.
#[derive(Debug, Clone, Copy, PartialEq, Eq, Structural)]
pub enum Word {
    Mul,
    Do,
    Dont,
}

/// How much of a word the machine has read.
#[derive(Debug, Clone, Copy, PartialEq, Eq, Structural)]
pub enum MulState {
    /// Nothing of use.
    Garbage,
    /// The letter `d`.
    D,
    /// As far as `o`.
    O,
    /// As far as `n`.
    N,
    /// As far as the apostrophe.
    Apostrophe,
    /// As far as `t`.
    T,
    /// The letter `m`.
    M,
    /// As far as `u`.
    U,
    /// As far as `l`.
    L,
    /// As far as the opening bracket of the given word.
    OpeningBracket(Word),
    /// One or more digits of the left number.
    LeftNum,
    /// As far as the comma.
    Comma,
    /// One or more digits of the right number.
    RightNum,
    /// The whole of it.
    ClosingBracket,
}

/// The machine: the digits read of the two numbers, the state, whether
/// multiplying is switched off, and the sum of the products so far.
#[derive(Debug)]
pub struct MulCache {
    pub left: Vec<char>,
    pub right: Vec<char>,
    pub mul_state: MulState,
    pub disabled: bool,
    pub sum: u32,
}

/// The machine as a mathematical value, with a sum that has no limit.
pub ghost struct CacheView {
    pub left: Seq<char>,
    pub right: Seq<char>,
    pub mul_state: MulState,
    pub disabled: bool,
    pub sum: nat,
}

impl View for MulCache {
    type V = CacheView;

    open spec fn view(&self) -> CacheView {
        CacheView {
            left: self.left@,
            right: self.right@,
            mul_state: self.mul_state,
            disabled: self.disabled,
            sum: self.sum as nat,
        }
    }
}

/// The number that the digits `s` denote, where it fits in 32 bits.
pub open spec fn number(s: Seq<char>) -> Option<nat> {
    number_up_to(s, u32::MAX as nat)
}

impl CacheView {
    /// The machine before the first character.
    pub open spec fn first() -> CacheView {
        CacheView {
            left: Seq::empty(),
            right: Seq::empty(),
            mul_state: MulState::Garbage,
            disabled: false,
            sum: 0,
        }
    }

    /// The machine sent back to its first state; the switch and the sum
    /// stay.
    pub open spec fn reset(self) -> CacheView {
        CacheView {
            left: Seq::empty(),
            right: Seq::empty(),
            mul_state: MulState::Garbage,
            disabled: self.disabled,
            sum: self.sum,
        }
    }

    /// The machine in the state `state`.
    pub open spec fn advance(self, state: MulState) -> CacheView {
        CacheView {
            left: self.left,
            right: self.right,
            mul_state: state,
            disabled: self.disabled,
            sum: self.sum,
        }
    }

    /// The machine after a character `a` that continues nothing: at the
    /// start of a word where `a` starts one, else sent back.
    pub open spec fn restart(self, a: char) -> CacheView {
        if a == 'm' {
            self.advance(MulState::M)
        } else if a == 'd' {
            self.advance(MulState::D)
        } else {
            self.reset()
        }
    }

    /// The machine in the state `state` where `a` is the character `b`
    /// that was due, else as after a character that continues nothing.
    pub open spec fn advance_on_match_or_reset(self, a: char, b: char, state: MulState) -> CacheView {
        if a == b {
            self.advance(state)
        } else {
            self.restart(a)
        }
    }

    /// The machine with one more digit of the left number.
    pub open spec fn left_digit(self, c: char) -> CacheView {
        CacheView {
            left: self.left.push(c),
            right: self.right,
            mul_state: MulState::LeftNum,
            disabled: self.disabled,
            sum: self.sum,
        }
    }

    /// The machine with one more digit of the right number.
    pub open spec fn right_digit(self, c: char) -> CacheView {
        CacheView {
            left: self.left,
            right: self.right.push(c),
            mul_state: MulState::RightNum,
            disabled: self.disabled,
            sum: self.sum,
        }
    }

    /// The machine after a switch has closed. Where `leave` holds it
    /// leaves the state of the opening bracket.
    pub open spec fn switched(self, disabled: bool, leave: bool) -> CacheView {
        CacheView {
            left: self.left,
            right: self.right,
            mul_state: if leave {
                MulState::ClosingBracket
            } else {
                self.mul_state
            },
            disabled,
            sum: self.sum,
        }
    }

    /// The product of the two numbers read, where both fit in 32 bits.
    pub open spec fn product(self) -> Option<nat> {
        match (number(self.left), number(self.right)) {
            (Some(l), Some(r)) => Some(l * r),
            _ => None,
        }
    }

    /// The machine after the closing bracket of a multiplication. There is
    /// none where a number, or the sum with the new product, does not fit
    /// in 32 bits.
    pub open spec fn multiplied(self) -> Option<CacheView> {
        match self.product() {
            Some(p) => if self.sum + p <= u32::MAX {
                Some(
                    CacheView {
                        left: Seq::empty(),
                        right: Seq::empty(),
                        mul_state: MulState::ClosingBracket,
                        disabled: self.disabled,
                        sum: self.sum + p,
                    },
                )
            } else {
                None
            },
            None => None,
        }
    }

    /// The machine after the character `c`, in the form that `leave`
    /// chooses.
    pub open spec fn after(self, c: char, leave: bool) -> Option<CacheView> {
        match self.mul_state {
            MulState::Garbage => Some(self.restart(c)),
            MulState::D => Some(self.advance_on_match_or_reset(c, 'o', MulState::O)),
            MulState::O => Some(
                if c == 'n' {
                    self.advance(MulState::N)
                } else {
                    self.advance_on_match_or_reset(c, '(', MulState::OpeningBracket(Word::Do))
                },
            ),
            MulState::N => Some(self.advance_on_match_or_reset(c, '\'', MulState::Apostrophe)),
            MulState::Apostrophe => Some(self.advance_on_match_or_reset(c, 't', MulState::T)),
            MulState::T => Some(
                self.advance_on_match_or_reset(c, '(', MulState::OpeningBracket(Word::Dont)),
            ),
            MulState::M => Some(self.advance_on_match_or_reset(c, 'u', MulState::U)),
            MulState::U => Some(self.advance_on_match_or_reset(c, 'l', MulState::L)),
            MulState::L => Some(
                self.advance_on_match_or_reset(c, '(', MulState::OpeningBracket(Word::Mul)),
            ),
            MulState::OpeningBracket(Word::Do) => Some(
                if c == ')' {
                    self.switched(false, leave)
                } else {
                    self.reset()
                },
            ),
            MulState::OpeningBracket(Word::Dont) => Some(
                if c == ')' {
                    self.switched(true, leave)
                } else {
                    self.reset()
                },
            ),
            MulState::OpeningBracket(Word::Mul) => Some(
                if is_digit(c) {
                    self.left_digit(c)
                } else {
                    self.reset()
                },
            ),
            MulState::LeftNum => Some(
                if is_digit(c) {
                    self.left_digit(c)
                } else if c == ',' {
                    self.advance(MulState::Comma)
                } else {
                    self.reset()
                },
            ),
            MulState::Comma => Some(
                if is_digit(c) {
                    self.right_digit(c)
                } else {
                    self.reset()
                },
            ),
            MulState::RightNum => if is_digit(c) {
                Some(self.right_digit(c))
            } else if !self.disabled && c == ')' {
                self.multiplied()
            } else {
                Some(self.reset())
            },
            MulState::ClosingBracket => Some(self.restart(c)),
        }
    }
}

/// The machine after all characters of `input`, where it gets that far.
pub open spec fn run(input: Seq<char>, leave: bool) -> Option<CacheView>
    decreases input.len(),
{
    if input.len() == 0 {
        Some(CacheView::first())
    } else {
        match run(input.drop_last(), leave) {
            Some(s) => s.after(input.last(), leave),
            None => None,
        }
    }
}

/// A machine that gets through a text gets through each beginning of it.
pub proof fn lemma_run_prefix(input: Seq<char>, leave: bool, k: int)
    requires
        0 <= k <= input.len(),
        run(input, leave) is Some,
    ensures
        run(input.take(k), leave) is Some,
    decreases input.len(),
{
    if k < input.len() {
        lemma_run_prefix(input.drop_last(), leave, k);
        assert(input.drop_last().take(k) =~= input.take(k));
    } else {
        assert(input.take(k) =~= input);
    }
}

impl MulCache {
    /// The machine before the first character.
    pub fn new() -> (r: MulCache)
        ensures
            r@ == CacheView::first(),
    {
        MulCache {
            left: Vec::new(),
            right: Vec::new(),
            mul_state: MulState::Garbage,
            disabled: false,
            sum: 0,
        }
    }

    /// Sends the machine back to its first state; the switch and the sum
    /// stay.
    pub fn reset(self) -> (r: MulCache)
        ensures
            r@ == self@.reset(),
    {
        MulCache {
            left: Vec::new(),
            right: Vec::new(),
            mul_state: MulState::Garbage,
            disabled: self.disabled,
            sum: self.sum,
        }
    }

    /// Puts the machine in the state `state`.
    pub fn advance(self, state: MulState) -> (r: MulCache)
        ensures
            r@ == self@.advance(state),
    {
        MulCache {
            left: self.left,
            right: self.right,
            mul_state: state,
            disabled: self.disabled,
            sum: self.sum,
        }
    }

    /// Reads a character that continues nothing.
    pub fn restart(self, a: char) -> (r: MulCache)
        ensures
            r@ == self@.restart(a),
    {
        if a == 'm' {
            self.advance(MulState::M)
        } else if a == 'd' {
            self.advance(MulState::D)
        } else {
            self.reset()
        }
    }

    /// Puts the machine in the state `state` where `a` is the character
    /// `b` that was due, else reads `a` as a character that continues
    /// nothing.
    pub fn advance_on_match_or_reset(self, a: char, b: char, state: MulState) -> (r: MulCache)
        ensures
            r@ == self@.advance_on_match_or_reset(a, b, state),
    {
        if a == b {
            self.advance(state)
        } else {
            self.restart(a)
        }
    }

    /// Takes one more digit of the left number.
    fn left_digit(self, c: char) -> (r: MulCache)
        ensures
            r@ == self@.left_digit(c),
    {
        let mut left = self.left;
        left.push(c);
        MulCache {
            left,
            right: self.right,
            mul_state: MulState::LeftNum,
            disabled: self.disabled,
            sum: self.sum,
        }
    }

    /// Takes one more digit of the right number.
    fn right_digit(self, c: char) -> (r: MulCache)
        ensures
            r@ == self@.right_digit(c),
    {
        let mut right = self.right;
        right.push(c);
        MulCache {
            left: self.left,
            right,
            mul_state: MulState::RightNum,
            disabled: self.disabled,
            sum: self.sum,
        }
    }

    /// Closes a switch.
    fn switched(self, disabled: bool, leave: bool) -> (r: MulCache)
        ensures
            r@ == self@.switched(disabled, leave),
    {
        MulCache {
            left: self.left,
            right: self.right,
            mul_state: if leave {
                MulState::ClosingBracket
            } else {
                self.mul_state
            },
            disabled,
            sum: self.sum,
        }
    }

    /// Closes a multiplication.
    fn multiplied(self) -> (r: MulCache)
        requires
            self@.multiplied() is Some,
        ensures
            r@ == self@.multiplied()->0,
    {
        let l: u128 = parse_up_to(&self.left, 0xFFFF_FFFF).unwrap();
        let r: u128 = parse_up_to(&self.right, 0xFFFF_FFFF).unwrap();
        assert(l * r <= 0xFFFF_FFFF * 0xFFFF_FFFF) by (nonlinear_arith)
            requires
                l <= 0xFFFF_FFFF,
                r <= 0xFFFF_FFFF,
        ;
        let sum: u32 = (self.sum as u128 + l * r) as u32;
        MulCache {
            left: Vec::new(),
            right: Vec::new(),
            mul_state: MulState::ClosingBracket,
            disabled: self.disabled,
            sum,
        }
    }

    /// Reads the character `c`, in the form that `leave` chooses.
    pub fn step(self, c: char, leave: bool) -> (r: MulCache)
        requires
            self@.after(c, leave) is Some,
        ensures
            r@ == self@.after(c, leave)->0,
    {
        match self.mul_state {
            MulState::Garbage => self.restart(c),
            MulState::D => self.advance_on_match_or_reset(c, 'o', MulState::O),
            MulState::O => if c == 'n' {
                self.advance(MulState::N)
            } else {
                self.advance_on_match_or_reset(c, '(', MulState::OpeningBracket(Word::Do))
            },
            MulState::N => self.advance_on_match_or_reset(c, '\'', MulState::Apostrophe),
            MulState::Apostrophe => self.advance_on_match_or_reset(c, 't', MulState::T),
            MulState::T => self.advance_on_match_or_reset(
                c,
                '(',
                MulState::OpeningBracket(Word::Dont),
            ),
            MulState::M => self.advance_on_match_or_reset(c, 'u', MulState::U),
            MulState::U => self.advance_on_match_or_reset(c, 'l', MulState::L),
            MulState::L => self.advance_on_match_or_reset(
                c,
                '(',
                MulState::OpeningBracket(Word::Mul),
            ),
            MulState::OpeningBracket(Word::Do) => if c == ')' {
                self.switched(false, leave)
            } else {
                self.reset()
            },
            MulState::OpeningBracket(Word::Dont) => if c == ')' {
                self.switched(true, leave)
            } else {
                self.reset()
            },
            MulState::OpeningBracket(Word::Mul) => if is_digit_char(c) {
                self.left_digit(c)
            } else {
                self.reset()
            },
            MulState::LeftNum => if is_digit_char(c) {
                self.left_digit(c)
            } else if c == ',' {
                self.advance(MulState::Comma)
            } else {
                self.reset()
            },
            MulState::Comma => if is_digit_char(c) {
                self.right_digit(c)
            } else {
                self.reset()
            },
            MulState::RightNum => if is_digit_char(c) {
                self.right_digit(c)
            } else if !self.disabled && c == ')' {
                self.multiplied()
            } else {
                self.reset()
            },
            MulState::ClosingBracket => self.restart(c),
        }
    }
}

/// The sum in the machine after it has read `input`, in the form that
/// `leave` chooses.
pub fn total(input: &str, leave: bool) -> (sum: u32)
    requires
        run(input@, leave) is Some,
    ensures
        sum == run(input@, leave)->0.sum,
{
    let mut cache = MulCache::new();
    let chars = input.chars();
    for c in it: chars
        invariant
            it.seq() == input@,
            run(input@, leave) is Some,
            run(it.seq().take(it.index()), leave) == Some(cache@),
    {
        proof {
            let k = it.index();
            lemma_run_prefix(input@, leave, k + 1);
            assert(input@.take(k + 1).drop_last() =~= input@.take(k));
        }
        cache = cache.step(c, leave);
    }
    proof {
        assert(input@.take(input@.len() as int) =~= input@);
    }
    cache.sum
}

/// The sum of the products that the machine finds in `input` while
/// multiplying is switched on, with the machine that stays at the opening
/// bracket after a switch. The numbers and the sum have to fit in 32 bits.
pub fn solve_day_03_part_02(input: &str) -> (sum: u32)
    requires
        run(input@, false) is Some,
    ensures
        sum == run(input@, false)->0.sum,
{
    total(input, false)
}

} // verus!
