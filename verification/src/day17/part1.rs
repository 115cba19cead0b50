//! The computer as a tape of instruction pairs and a state that the
//! instructions change.

use crate::util::text::chars_of;
use crate::util::text::decimal_digits;
use crate::util::text::format_u128;
use crate::util::text::join;
use crate::util::text::joined;
use crate::util::text::lines;
use crate::util::text::number_up_to;
use crate::util::text::parse_up_to;
use crate::util::text::split_lines;
use crate::util::text::split_on;
use crate::util::text::split_seq;
use crate::util::text::string_from_chars;
use crate::util::text::strip_prefix;
use crate::util::text::has_prefix;
use crate::util::text::trim;
use crate::util::text::trimmed;
use crate::util::text::views;
use vstd::prelude::*;

verus! {

/// The eight instructions.
#[derive(Debug, Clone, Copy, PartialEq, Eq, Structural)]
pub enum OpCode {
    Adv,
    Bxl,
    Bst,
    Jnz,
    Bxc,
    Out,
    Bdv,
    Cdv,
}

/// The instruction with the number `v`.
pub open spec fn opcode_of(v: u8) -> Option<OpCode> {
    if v == 0 {
        Some(OpCode::Adv)
    } else if v == 1 {
        Some(OpCode::Bxl)
    } else if v == 2 {
        Some(OpCode::Bst)
    } else if v == 3 {
        Some(OpCode::Jnz)
    } else if v == 4 {
        Some(OpCode::Bxc)
    } else if v == 5 {
        Some(OpCode::Out)
    } else if v == 6 {
        Some(OpCode::Bdv)
    } else if v == 7 {
        Some(OpCode::Cdv)
    } else {
        None
    }
}

impl OpCode {
    /// The instruction with the number `v`, if there is one.
    pub fn from_code(v: u8) -> (r: Option<OpCode>)
        ensures
            r == opcode_of(v),
    {
        match v {
            0u8 => Some(OpCode::Adv),
            1u8 => Some(OpCode::Bxl),
            2u8 => Some(OpCode::Bst),
            3u8 => Some(OpCode::Jnz),
            4u8 => Some(OpCode::Bxc),
            5u8 => Some(OpCode::Out),
            6u8 => Some(OpCode::Bdv),
            7u8 => Some(OpCode::Cdv),
            _ => None,
        }
    }

    /// Whether the instruction reads its operand as a combo operand: as a
    /// small number or as the name of a register.
    pub open spec fn uses_combo(self) -> bool {
        self == OpCode::Adv || self == OpCode::Bst || self == OpCode::Out || self == OpCode::Bdv
            || self == OpCode::Cdv
    }
}

/// The program: pairs of an instruction and its operand.
#[derive(Debug, PartialEq, Eq, Default)]
pub struct TuringTape(pub Vec<(OpCode, u8)>);

impl View for TuringTape {
    type V = Seq<(OpCode, u8)>;

    open spec fn view(&self) -> Seq<(OpCode, u8)> {
        self.0@
    }
}

/// The state of the computer.
#[derive(Debug, PartialEq, Eq)]
pub struct TuringState {
    pub pointer: usize,
    pub reg_a: u32,
    pub reg_b: u32,
    pub reg_c: u32,
    pub output: Vec<u8>,
}

/// The state of the computer as plain values.
pub struct StateView {
    pub pointer: nat,
    pub reg_a: u32,
    pub reg_b: u32,
    pub reg_c: u32,
    pub output: Seq<u8>,
}

impl View for TuringState {
    type V = StateView;

    open spec fn view(&self) -> StateView {
        StateView {
            pointer: self.pointer as nat,
            reg_a: self.reg_a,
            reg_b: self.reg_b,
            reg_c: self.reg_c,
            output: self.output@,
        }
    }
}

/// The value of a combo operand: the numbers up to 3 stand for themselves,
/// 4, 5 and 6 for the registers; the others are reserved.
pub open spec fn combo_value(s: StateView, operand: u8) -> Option<u32> {
    if operand <= 3 {
        Some(operand as u32)
    } else if operand == 4 {
        Some(s.reg_a)
    } else if operand == 5 {
        Some(s.reg_b)
    } else if operand == 6 {
        Some(s.reg_c)
    } else {
        None
    }
}

/// `a` divided by the `n`-th power of two, rounded down.
pub open spec fn shifted(a: u32, n: u32) -> u32 {
    if n >= 32 {
        0
    } else {
        a >> n
    }
}

/// The state after one instruction, or `None` where the instruction reads
/// a reserved combo operand.
pub open spec fn after(s: StateView, opcode: OpCode, operand: u8) -> Option<StateView> {
    let next = (s.pointer + 1) as nat;
    let combo = combo_value(s, operand);
    if opcode.uses_combo() && combo is None {
        None
    } else {
        Some(
            match opcode {
                OpCode::Adv => StateView { reg_a: shifted(s.reg_a, combo->0), pointer: next, ..s },
                OpCode::Bxl => StateView { reg_b: s.reg_b ^ (operand as u32), pointer: next, ..s },
                OpCode::Bst => StateView { reg_b: combo->0 % 8, pointer: next, ..s },
                OpCode::Jnz => if s.reg_a != 0 {
                    StateView { pointer: operand as nat, ..s }
                } else {
                    StateView { pointer: next, ..s }
                },
                OpCode::Bxc => StateView { reg_b: s.reg_b ^ s.reg_c, pointer: next, ..s },
                OpCode::Out => StateView {
                    output: s.output.push((combo->0 % 8) as u8),
                    pointer: next,
                    ..s
                },
                OpCode::Bdv => StateView { reg_b: shifted(s.reg_a, combo->0), pointer: next, ..s },
                OpCode::Cdv => StateView { reg_c: shifted(s.reg_a, combo->0), pointer: next, ..s },
            },
        )
    }
}

/// `a` divided by the `n`-th power of two, rounded down.
pub fn shift_right(a: u32, n: u32) -> (r: u32)
    ensures
        r == shifted(a, n),
{
    if n >= 32 {
        0
    } else {
        a >> n
    }
}

impl TuringState {
    /// The state before the first instruction, with the given registers.
    pub fn new(reg_a: u32, reg_b: u32, reg_c: u32) -> (s: TuringState)
        ensures
            s@ == (StateView { pointer: 0, reg_a, reg_b, reg_c, output: Seq::empty() }),
    {
        TuringState { pointer: 0, output: Vec::new(), reg_a, reg_b, reg_c }
    }

    /// A state with every part given.
    pub fn new_all(reg_a: u32, reg_b: u32, reg_c: u32, pointer: usize, output: Vec<u8>) -> (s:
        TuringState)
        ensures
            s@ == (StateView { pointer: pointer as nat, reg_a, reg_b, reg_c, output: output@ }),
    {
        TuringState { pointer, output, reg_a, reg_b, reg_c }
    }

    /// The value of the combo operand `operand`, unless it is reserved.
    pub fn combo(&self, operand: u8) -> (r: Option<u32>)
        ensures
            r == combo_value(self@, operand),
    {
        match operand {
            0 | 1 | 2 | 3 => Some(operand as u32),
            4 => Some(self.reg_a),
            5 => Some(self.reg_b),
            6 => Some(self.reg_c),
            _ => None,
        }
    }

    /// Executes one instruction. The instruction must not read a reserved
    /// combo operand.
    pub fn advance(self, opcode: &OpCode, operand: &u8) -> (r: TuringState)
        requires
            after(self@, *opcode, *operand) is Some,
            self.pointer < usize::MAX,
        ensures
            Some(r@) == after(self@, *opcode, *operand),
    {
        let mut s = self;
        let combo: u32 = match s.combo(*operand) {
            Some(v) => v,
            None => 0,
        };
        match opcode {
            OpCode::Adv => {
                s.reg_a = shift_right(s.reg_a, combo);
                s.pointer = s.pointer + 1;
            },
            OpCode::Bxl => {
                s.reg_b = s.reg_b ^ (*operand as u32);
                s.pointer = s.pointer + 1;
            },
            OpCode::Bst => {
                s.reg_b = combo % 8;
                s.pointer = s.pointer + 1;
            },
            OpCode::Jnz => {
                if s.reg_a != 0 {
                    s.pointer = *operand as usize;
                } else {
                    s.pointer = s.pointer + 1;
                }
            },
            OpCode::Bxc => {
                s.reg_b = s.reg_b ^ s.reg_c;
                s.pointer = s.pointer + 1;
            },
            OpCode::Out => {
                s.output.push((combo % 8) as u8);
                s.pointer = s.pointer + 1;
            },
            OpCode::Bdv => {
                s.reg_b = shift_right(s.reg_a, combo);
                s.pointer = s.pointer + 1;
            },
            OpCode::Cdv => {
                s.reg_c = shift_right(s.reg_a, combo);
                s.pointer = s.pointer + 1;
            },
        }
        s
    }
}

/// Whether no instruction of the program names a reserved combo operand.
pub open spec fn tape_ok(tape: Seq<(OpCode, u8)>) -> bool {
    forall|i: int| 0 <= i < tape.len() ==> !((#[trigger] tape[i]).0.uses_combo() && tape[i].1 > 6)
}

/// The state after the instruction that the pointer points at; the state
/// itself where the pointer has left the program.
pub open spec fn stepped(tape: Seq<(OpCode, u8)>, s: StateView) -> StateView {
    if s.pointer < tape.len() {
        let pair = tape[s.pointer as int];
        match after(s, pair.0, pair.1) {
            Some(next) => next,
            None => s,
        }
    } else {
        s
    }
}

/// Executes the instruction that the pointer points at, if it points at
/// one.
pub fn advance(tape: &TuringTape, state: TuringState) -> (r: TuringState)
    requires
        tape_ok(tape@),
    ensures
        r@ == stepped(tape@, state@),
{
    let p = state.pointer;
    if p < tape.0.len() {
        let pair = &tape.0[p];
        state.advance(&pair.0, &pair.1)
    } else {
        state
    }
}

/// The state after at most `fuel` instructions, or fewer where the pointer
/// leaves the program before.
pub open spec fn run(tape: Seq<(OpCode, u8)>, s: StateView, fuel: nat) -> StateView
    decreases fuel,
{
    if fuel == 0 || s.pointer >= tape.len() {
        s
    } else {
        run(tape, stepped(tape, s), (fuel - 1) as nat)
    }
}

/// The pairs that a list of numbers holds: the instruction with the first
/// number and the second number, and so on. A number left over at the end
/// is ignored. `None` where a first number is no instruction.
pub open spec fn pairs_of(numbers: Seq<u8>) -> Option<Seq<(OpCode, u8)>>
    decreases numbers.len(),
{
    if numbers.len() < 2 {
        Some(Seq::empty())
    } else {
        let k = (numbers.len() - numbers.len() % 2) as int;
        let before = pairs_of(numbers.take(k - 2));
        let op = opcode_of(numbers[k - 2]);
        if before is Some && op is Some {
            Some(before->0.push((op->0, numbers[k - 1])))
        } else {
            None
        }
    }
}

/// The numbers that the parts of a list denote, each at most 255; `None`
/// where a part is no such number.
pub open spec fn bytes_of(parts: Seq<Seq<char>>) -> Option<Seq<u8>>
    decreases parts.len(),
{
    if parts.len() == 0 {
        Some(Seq::empty())
    } else {
        let before = bytes_of(parts.drop_last());
        let n = number_up_to(parts.last(), 255);
        if before is Some && n is Some {
            Some(before->0.push(n->0 as u8))
        } else {
            None
        }
    }
}

/// The program that a list of numbers with commas between them denotes.
pub open spec fn tape_of(text: Seq<char>) -> Option<Seq<(OpCode, u8)>> {
    match bytes_of(split_seq(text, ',')) {
        Some(numbers) => pairs_of(numbers),
        None => None,
    }
}

/// Reads a list of numbers with commas between them.
pub fn parse_bytes(text: &Vec<char>) -> (r: Option<Vec<u8>>)
    ensures
        r is Some <==> bytes_of(split_seq(text@, ',')) is Some,
        r is Some ==> r->0@ == bytes_of(split_seq(text@, ','))->0,
{
    let parts = split_on(text, ',');
    let mut numbers: Vec<u8> = Vec::new();
    let mut i: usize = 0;
    while i < parts.len()
        invariant
            i <= parts.len(),
            views(parts@) == split_seq(text@, ','),
            bytes_of(views(parts@).take(i as int)) == Some(numbers@),
        decreases parts.len() - i,
    {
        proof {
            assert(views(parts@).take(i + 1).drop_last() =~= views(parts@).take(i as int));
            assert(views(parts@).take(i + 1).last() == parts[i as int]@);
        }
        match parse_up_to(&parts[i], 255) {
            Some(n) => {
                numbers.push(n as u8);
            },
            None => {
                proof {
                    if bytes_of(views(parts@)) is Some {
                        lemma_bytes_of_prefix(views(parts@), i + 1);
                    }
                }
                return None;
            },
        }
        i = i + 1;
    }
    proof {
        assert(views(parts@).take(parts.len() as int) =~= views(parts@));
    }
    Some(numbers)
}

/// Where a list of parts denotes numbers, so does every prefix of it.
pub proof fn lemma_bytes_of_prefix(parts: Seq<Seq<char>>, k: int)
    requires
        0 <= k <= parts.len(),
        bytes_of(parts) is Some,
    ensures
        bytes_of(parts.take(k)) is Some,
    decreases parts.len(),
{
    if k == parts.len() {
        assert(parts.take(k) =~= parts);
    } else {
        lemma_bytes_of_prefix(parts.drop_last(), k);
        assert(parts.drop_last().take(k) =~= parts.take(k));
    }
}

impl TuringTape {
    /// Reads a program: numbers with commas between them, by turns an
    /// instruction and its operand. `None` where a part is no number up to
    /// 255 or an instruction has a number above 7.
    pub fn parse(text: &Vec<char>) -> (r: Option<TuringTape>)
        ensures
            r is Some <==> tape_of(text@) is Some,
            r is Some ==> r->0@ == tape_of(text@)->0,
    {
        let numbers = match parse_bytes(text) {
            Some(n) => n,
            None => {
                return None;
            },
        };
        let mut pairs: Vec<(OpCode, u8)> = Vec::new();
        let mut i: usize = 0;
        while i + 1 < numbers.len()
            invariant
                i % 2 == 0,
                i <= numbers.len(),
                bytes_of(split_seq(text@, ',')) == Some(numbers@),
                pairs_of(numbers@.take(i as int)) == Some(pairs@),
            decreases numbers.len() - i,
        {
            proof {
                let upto = numbers@.take(i + 2);
                assert(upto.take(i as int) =~= numbers@.take(i as int));
            }
            match OpCode::from_code(numbers[i]) {
                Some(op) => {
                    pairs.push((op, numbers[i + 1]));
                },
                None => {
                    proof {
                        assert(pairs_of(numbers@.take(i + 2)) is None);
                        if pairs_of(numbers@) is Some {
                            lemma_pairs_of_prefix(numbers@, i + 2);
                        }
                    }
                    return None;
                },
            }
            i = i + 2;
        }
        proof {
            lemma_pairs_of_tail(numbers@, i as int);
        }
        Some(TuringTape(pairs))
    }
}

/// Where a list of numbers holds pairs, so does every prefix of it of
/// even length.
pub proof fn lemma_pairs_of_prefix(numbers: Seq<u8>, k: int)
    requires
        0 <= k <= numbers.len(),
        k % 2 == 0,
        pairs_of(numbers) is Some,
    ensures
        pairs_of(numbers.take(k)) is Some,
    decreases numbers.len(),
{
    let full = (numbers.len() - numbers.len() % 2) as int;
    if numbers.len() < 2 {
        assert(numbers.take(k) =~= numbers.take(0));
    } else if k == full {
        lemma_pairs_of_tail(numbers, k);
    } else {
        lemma_pairs_of_prefix(numbers.take(full - 2), k);
        assert(numbers.take(full - 2).take(k) =~= numbers.take(k));
    }
}

/// A number left over at the end of a list changes nothing.
pub proof fn lemma_pairs_of_tail(numbers: Seq<u8>, k: int)
    requires
        0 <= k <= numbers.len() < k + 2,
        k % 2 == 0,
    ensures
        pairs_of(numbers) == pairs_of(numbers.take(k)),
{
    if numbers.len() >= 2 {
        assert(numbers.take(k).take(k - 2) =~= numbers.take(k - 2));
    } else {
        assert(k == 0);
    }
}

/// What was read of a description of the computer so far.
pub struct Setup {
    pub a: Option<u32>,
    pub b: Option<u32>,
    pub c: Option<u32>,
    pub tape: TuringTape,
}

/// What was read of a description of the computer so far, as plain values.
pub struct SetupView {
    pub a: Option<u32>,
    pub b: Option<u32>,
    pub c: Option<u32>,
    pub tape: Seq<(OpCode, u8)>,
}

impl View for Setup {
    type V = SetupView;

    open spec fn view(&self) -> SetupView {
        SetupView { a: self.a, b: self.b, c: self.c, tape: self.tape@ }
    }
}

/// A program and the state in which its run begins.
pub ghost struct Computer {
    pub tape: Seq<(OpCode, u8)>,
    pub state: StateView,
}

/// The number up to the largest register value that `s` denotes.
pub open spec fn register_of(s: Seq<char>) -> Option<u32> {
    match number_up_to(s, u32::MAX as nat) {
        Some(n) => Some(n as u32),
        None => None,
    }
}

/// What one more line makes of what was read so far: a line that begins
/// with the name of a register sets it, a line that begins with
/// `Program: ` sets the program, and any other line changes nothing.
/// `None` where the rest of such a line cannot be read.
pub open spec fn with_line(s: SetupView, line: Seq<char>) -> Option<SetupView> {
    if has_prefix(line, "Register A: "@) {
        match register_of(line.skip("Register A: "@.len() as int)) {
            Some(n) => Some(SetupView { a: Some(n), ..s }),
            None => None,
        }
    } else if has_prefix(line, "Register B: "@) {
        match register_of(line.skip("Register B: "@.len() as int)) {
            Some(n) => Some(SetupView { b: Some(n), ..s }),
            None => None,
        }
    } else if has_prefix(line, "Register C: "@) {
        match register_of(line.skip("Register C: "@.len() as int)) {
            Some(n) => Some(SetupView { c: Some(n), ..s }),
            None => None,
        }
    } else if has_prefix(line, "Program: "@) {
        match tape_of(line.skip("Program: "@.len() as int)) {
            Some(t) => Some(SetupView { tape: t, ..s }),
            None => None,
        }
    } else {
        Some(s)
    }
}

/// What the lines make of an empty description, one after the other.
pub open spec fn with_lines(lines: Seq<Seq<char>>) -> Option<SetupView>
    decreases lines.len(),
{
    if lines.len() == 0 {
        Some(SetupView { a: None, b: None, c: None, tape: Seq::empty() })
    } else {
        match with_lines(lines.drop_last()) {
            Some(s) => with_line(s, lines.last()),
            None => None,
        }
    }
}

/// The program and the first state that a text describes: the lines of
/// the text, without the white space around it, must set all three
/// registers.
pub open spec fn setup_of(text: Seq<char>) -> Option<Computer> {
    match with_lines(split_lines(trimmed(text))) {
        Some(s) => if s.a is Some && s.b is Some && s.c is Some {
            Some(
                Computer {
                    tape: s.tape,
                    state: StateView {
                        pointer: 0,
                        reg_a: s.a->0,
                        reg_b: s.b->0,
                        reg_c: s.c->0,
                        output: Seq::empty(),
                    },
                },
            )
        } else {
            None
        },
        None => None,
    }
}

/// Reads a register value.
pub fn parse_register(v: &Vec<char>) -> (r: Option<u32>)
    ensures
        r == register_of(v@),
{
    match parse_up_to(v, u32::MAX as u128) {
        Some(n) => Some(n as u32),
        None => None,
    }
}

/// Reads one more line of a description.
pub fn read_line(setup: Setup, line: &Vec<char>) -> (r: Option<Setup>)
    ensures
        match r {
            Some(s) => with_line(setup@, line@) == Some(s@),
            None => with_line(setup@, line@) is None,
        },
{
    let mut setup = setup;
    if let Some(rest) = strip_prefix(line, "Register A: ") {
        match parse_register(&rest) {
            Some(n) => {
                setup.a = Some(n);
                Some(setup)
            },
            None => None,
        }
    } else if let Some(rest) = strip_prefix(line, "Register B: ") {
        match parse_register(&rest) {
            Some(n) => {
                setup.b = Some(n);
                Some(setup)
            },
            None => None,
        }
    } else if let Some(rest) = strip_prefix(line, "Register C: ") {
        match parse_register(&rest) {
            Some(n) => {
                setup.c = Some(n);
                Some(setup)
            },
            None => None,
        }
    } else if let Some(rest) = strip_prefix(line, "Program: ") {
        match TuringTape::parse(&rest) {
            Some(t) => {
                setup.tape = t;
                Some(setup)
            },
            None => None,
        }
    } else {
        Some(setup)
    }
}

/// Reads the description of a computer: its program and its first state.
pub fn parse(input: &str) -> (r: Option<(TuringTape, TuringState)>)
    ensures
        match r {
            Some((tape, state)) => setup_of(input@) == Some(
                Computer { tape: tape@, state: state@ },
            ),
            None => setup_of(input@) is None,
        },
{
    let chars = chars_of(input);
    let body = trim(&chars);
    let rows = lines(&body);
    let mut setup = Setup { a: None, b: None, c: None, tape: TuringTape(Vec::new()) };
    let mut i: usize = 0;
    while i < rows.len()
        invariant
            i <= rows.len(),
            views(rows@) == split_lines(trimmed(input@)),
            with_lines(views(rows@).take(i as int)) == Some(setup@),
        decreases rows.len() - i,
    {
        proof {
            assert(views(rows@).take(i + 1).drop_last() =~= views(rows@).take(i as int));
            assert(views(rows@).take(i + 1).last() == rows[i as int]@);
        }
        match read_line(setup, &rows[i]) {
            Some(s) => {
                setup = s;
            },
            None => {
                proof {
                    if with_lines(views(rows@)) is Some {
                        lemma_with_lines_prefix(views(rows@), i + 1);
                    }
                }
                return None;
            },
        }
        i = i + 1;
    }
    proof {
        assert(views(rows@).take(rows.len() as int) =~= views(rows@));
    }
    match (setup.a, setup.b, setup.c) {
        (Some(a), Some(b), Some(c)) => Some((setup.tape, TuringState::new(a, b, c))),
        _ => None,
    }
}

/// Where a list of lines can be read, so can every prefix of it.
pub proof fn lemma_with_lines_prefix(lines: Seq<Seq<char>>, k: int)
    requires
        0 <= k <= lines.len(),
        with_lines(lines) is Some,
    ensures
        with_lines(lines.take(k)) is Some,
    decreases lines.len(),
{
    if k == lines.len() {
        assert(lines.take(k) =~= lines);
    } else {
        lemma_with_lines_prefix(lines.drop_last(), k);
        assert(lines.drop_last().take(k) =~= lines.take(k));
    }
}

/// The most instructions that a run executes.
pub const STEP_LIMIT: u64 = u64::MAX;

/// The numbers of a list in decimal digits, with commas between them.
pub open spec fn listing(numbers: Seq<u8>) -> Seq<char> {
    joined(Seq::new(numbers.len(), |i: int| decimal_digits(numbers[i] as nat)), ',')
}

/// Writes the numbers of a list in decimal digits, with commas between.
pub fn list_numbers(numbers: &Vec<u8>) -> (r: Vec<char>)
    ensures
        r@ == listing(numbers@),
{
    let mut parts: Vec<Vec<char>> = Vec::new();
    let mut i: usize = 0;
    while i < numbers.len()
        invariant
            i <= numbers.len(),
            parts.len() == i,
            forall|j: int| 0 <= j < i ==> (#[trigger] parts[j])@ == decimal_digits(numbers[j] as nat),
        decreases numbers.len() - i,
    {
        parts.push(format_u128(numbers[i] as u128));
        i = i + 1;
    }
    proof {
        assert(views(parts@) =~= Seq::new(
            numbers@.len(),
            |i: int| decimal_digits(numbers@[i] as nat),
        ));
    }
    join(&parts, ',')
}

/// Runs the program from the given state until the pointer leaves it, or
/// until `STEP_LIMIT` instructions are executed.
pub fn execute(tape: &TuringTape, state: TuringState) -> (r: TuringState)
    requires
        tape_ok(tape@),
    ensures
        r@ == run(tape@, state@, STEP_LIMIT as nat),
{
    let mut state = state;
    let ghost first = state@;
    let mut left: u64 = STEP_LIMIT;
    while left > 0 && state.pointer < tape.0.len()
        invariant
            tape_ok(tape@),
            run(tape@, state@, left as nat) == run(tape@, first, STEP_LIMIT as nat),
        decreases left,
    {
        state = advance(tape, state);
        left = left - 1;
    }
    state
}

/// What the computer that `input` describes puts out: the numbers, in
/// decimal digits with commas between them, that its program has written
/// when the pointer leaves it. The text must describe a computer, and no
/// instruction may name a reserved combo operand.
pub fn solve_day_17_part_01(input: &str) -> (r: String)
    requires
        setup_of(input@) is Some,
        tape_ok(setup_of(input@)->0.tape),
    ensures
        r@ == listing(
            run(setup_of(input@)->0.tape, setup_of(input@)->0.state, STEP_LIMIT as nat).output,
        ),
{
    match parse(input) {
        Some((tape, state)) => {
            let end = execute(&tape, state);
            let text = list_numbers(&end.output);
            string_from_chars(&text)
        },
        None => vstd::pervasive::unreached(),
    }
}

} // verus!
