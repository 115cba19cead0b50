//! The computer as a machine that reads its program from its memory, byte
//! by byte.

use crate::day17::part1::bytes_of;
use crate::day17::part1::parse_bytes;
use crate::util::text::after_last;
use crate::util::text::append_chars;
use crate::util::text::chars_of;
use crate::util::text::tail_after;
use crate::util::text::decimal_digits;
use crate::util::text::format_u128;
use crate::util::text::lines;
use crate::util::text::number_up_to;
use crate::util::text::parse_up_to;
use crate::util::text::split_lines;
use crate::util::text::split_seq;
use crate::util::text::string_from_chars;
use crate::util::text::views;
use vstd::pervasive::unreached;
use vstd::prelude::*;

verus! {

/// The eight instructions.
#[derive(Debug, Clone, Copy, PartialEq, Eq, Structural)]
pub enum Instruction {
    Adv,
    Bxl,
    Bst,
    Jnz,
    Bxc,
    Out,
    Bdv,
    Cdv,
}

/// The instruction that the byte `v` stands for.
pub open spec fn instruction_of(v: u8) -> Option<Instruction> {
    if v == 0 {
        Some(Instruction::Adv)
    } else if v == 1 {
        Some(Instruction::Bxl)
    } else if v == 2 {
        Some(Instruction::Bst)
    } else if v == 3 {
        Some(Instruction::Jnz)
    } else if v == 4 {
        Some(Instruction::Bxc)
    } else if v == 5 {
        Some(Instruction::Out)
    } else if v == 6 {
        Some(Instruction::Bdv)
    } else if v == 7 {
        Some(Instruction::Cdv)
    } else {
        None
    }
}

impl Instruction {
    /// The instruction that the byte `v` stands for, if it stands for one.
    pub fn from_byte(v: u8) -> (r: Option<Instruction>)
        ensures
            r == instruction_of(v),
    {
        match v {
            0 => Some(Instruction::Adv),
            1 => Some(Instruction::Bxl),
            2 => Some(Instruction::Bst),
            3 => Some(Instruction::Jnz),
            4 => Some(Instruction::Bxc),
            5 => Some(Instruction::Out),
            6 => Some(Instruction::Bdv),
            7 => Some(Instruction::Cdv),
            _ => None,
        }
    }

    /// Whether the operand of the instruction is always a plain number.
    pub open spec fn literal(self) -> bool {
        self == Instruction::Bxl || self == Instruction::Jnz || self == Instruction::Bxc
    }

    /// Whether the operand of the instruction is always a plain number,
    /// and never the name of a register.
    pub fn is_literally_literal(&self) -> (r: bool)
        ensures
            r == self.literal(),
    {
        match self {
            Instruction::Adv => false,
            Instruction::Bxl => true,
            Instruction::Bst => false,
            Instruction::Jnz => true,
            Instruction::Bxc => true,
            Instruction::Out => false,
            Instruction::Bdv => false,
            Instruction::Cdv => false,
        }
    }

    /// The name of the instruction.
    pub open spec fn name(self) -> Seq<char> {
        match self {
            Instruction::Adv => "Adv"@,
            Instruction::Bxl => "Bxl"@,
            Instruction::Bst => "Bst"@,
            Instruction::Jnz => "Jnz"@,
            Instruction::Bxc => "Bxc"@,
            Instruction::Out => "Out"@,
            Instruction::Bdv => "Bdv"@,
            Instruction::Cdv => "Cdv"@,
        }
    }

    /// The name of the instruction.
    pub fn mnemonic(&self) -> (r: Vec<char>)
        ensures
            r@ == self.name(),
    {
        match self {
            Instruction::Adv => chars_of("Adv"),
            Instruction::Bxl => chars_of("Bxl"),
            Instruction::Bst => chars_of("Bst"),
            Instruction::Jnz => chars_of("Jnz"),
            Instruction::Bxc => chars_of("Bxc"),
            Instruction::Out => chars_of("Out"),
            Instruction::Bdv => chars_of("Bdv"),
            Instruction::Cdv => chars_of("Cdv"),
        }
    }
}

/// What an instruction works on: a plain number or a register.
#[derive(Debug, Clone, Copy, PartialEq, Eq, Structural)]
pub enum Operand {
    Literal(u8),
    A,
    B,
    C,
}

/// The combo operand that the byte `v` stands for: the numbers up to 3
/// stand for themselves, 4, 5 and 6 for the registers.
pub open spec fn combo_of(v: u8) -> Option<Operand> {
    if v <= 3 {
        Some(Operand::Literal(v))
    } else if v == 4 {
        Some(Operand::A)
    } else if v == 5 {
        Some(Operand::B)
    } else if v == 6 {
        Some(Operand::C)
    } else {
        None
    }
}

/// The operand that the byte `v` stands for behind the instruction `i`.
pub open spec fn operand_of(i: Instruction, v: u8) -> Option<Operand> {
    if i.literal() {
        Some(Operand::Literal(v))
    } else {
        combo_of(v)
    }
}

impl Operand {
    /// The combo operand that the byte `v` stands for, if it stands for one.
    pub fn from_byte(v: u8) -> (r: Option<Operand>)
        ensures
            r == combo_of(v),
    {
        match v {
            0 | 1 | 2 | 3 => Some(Operand::Literal(v)),
            4 => Some(Operand::A),
            5 => Some(Operand::B),
            6 => Some(Operand::C),
            _ => None,
        }
    }

    /// The operand as it is written in a listing.
    pub open spec fn text(self) -> Seq<char> {
        match self {
            Operand::Literal(v) => decimal_digits(v as nat),
            Operand::A => seq!['A'],
            Operand::B => seq!['B'],
            Operand::C => seq!['C'],
        }
    }

    /// The operand as it is written in a listing.
    pub fn written(&self) -> (r: Vec<char>)
        ensures
            r@ == self.text(),
    {
        match self {
            Operand::Literal(v) => format_u128(*v as u128),
            Operand::A => {
                let mut r: Vec<char> = Vec::new();
                r.push('A');
                r
            },
            Operand::B => {
                let mut r: Vec<char> = Vec::new();
                r.push('B');
                r
            },
            Operand::C => {
                let mut r: Vec<char> = Vec::new();
                r.push('C');
                r
            },
        }
    }
}

/// The machine: three registers, the instruction pointer, the memory with
/// the program, whether it has halted, and what it has put out.
#[derive(Debug, Clone)]
pub struct Machine {
    pub a: u128,
    pub b: u128,
    pub c: u128,
    pub ip: usize,
    pub ram: Vec<u8>,
    pub halted: bool,
    pub output: Vec<u8>,
}

/// The machine as plain values.
pub struct MachineView {
    pub a: u128,
    pub b: u128,
    pub c: u128,
    pub ip: nat,
    pub ram: Seq<u8>,
    pub halted: bool,
    pub output: Seq<u8>,
}

impl View for Machine {
    type V = MachineView;

    open spec fn view(&self) -> MachineView {
        MachineView {
            a: self.a,
            b: self.b,
            c: self.c,
            ip: self.ip as nat,
            ram: self.ram@,
            halted: self.halted,
            output: self.output@,
        }
    }
}

impl Default for Machine {
    fn default() -> (m: Machine)
        ensures
            m@ == (MachineView {
                a: 0,
                b: 0,
                c: 0,
                ip: 0,
                ram: Seq::empty(),
                halted: false,
                output: Seq::empty(),
            }),
    {
        Machine { a: 0, b: 0, c: 0, ip: 0, ram: Vec::new(), halted: false, output: Vec::new() }
    }
}

/// `v` shifted to the right by `n` bits: divided by the `n`-th power of
/// two, rounded down.
pub open spec fn shifted(v: u128, n: u128) -> u128 {
    if n >= 128 {
        0
    } else {
        v >> n
    }
}

/// `v` shifted to the right by `n` bits.
pub fn shift_right(v: u128, n: u128) -> (r: u128)
    ensures
        r == shifted(v, n),
{
    if n >= 128 {
        0
    } else {
        v >> n
    }
}

impl MachineView {
    /// The value of an operand.
    pub open spec fn value_of(self, operand: Operand) -> u128 {
        match operand {
            Operand::Literal(v) => v as u128,
            Operand::A => self.a,
            Operand::B => self.b,
            Operand::C => self.c,
        }
    }

    /// The instruction at the pointer and its operand, where the pointer
    /// points at two bytes of the memory that stand for them.
    pub open spec fn fetch(self) -> Option<(Instruction, Operand)> {
        if self.ip + 1 < self.ram.len() {
            match instruction_of(self.ram[self.ip as int]) {
                Some(i) => match operand_of(i, self.ram[self.ip as int + 1]) {
                    Some(o) => Some((i, o)),
                    None => None,
                },
                None => None,
            }
        } else {
            None
        }
    }

    /// The machine after one step. A halted machine stays as it is. A
    /// machine halts where the pointer does not point at an instruction
    /// with its operand. Otherwise the instruction is executed, and the
    /// pointer moves on behind its operand unless the instruction jumped.
    pub open spec fn step(self) -> MachineView {
        if self.halted {
            self
        } else {
            match self.fetch() {
                None => MachineView { halted: true, ..self },
                Some((i, o)) => {
                    let v = self.value_of(o);
                    let next = (self.ip + 2) as nat;
                    match i {
                        Instruction::Adv => MachineView { a: shifted(self.a, v), ip: next, ..self },
                        Instruction::Bxl => MachineView { b: self.b ^ v, ip: next, ..self },
                        Instruction::Bst => MachineView { b: v & 7, ip: next, ..self },
                        Instruction::Jnz => if self.a != 0 {
                            MachineView { ip: v as nat, ..self }
                        } else {
                            MachineView { ip: next, ..self }
                        },
                        Instruction::Bxc => MachineView { b: self.b ^ self.c, ip: next, ..self },
                        Instruction::Out => MachineView {
                            output: self.output.push((v & 7) as u8),
                            ip: next,
                            ..self
                        },
                        Instruction::Bdv => MachineView { b: shifted(self.a, v), ip: next, ..self },
                        Instruction::Cdv => MachineView { c: shifted(self.a, v), ip: next, ..self },
                    }
                },
            }
        }
    }

    /// The machine after at most `fuel` steps, or fewer where it halts
    /// before.
    pub open spec fn run(self, fuel: nat) -> MachineView
        decreases fuel,
    {
        if fuel == 0 || self.halted {
            self
        } else {
            self.step().run((fuel - 1) as nat)
        }
    }
}

/// The most steps that a run makes.
pub const STEP_LIMIT: u64 = u64::MAX;

impl Machine {
    /// The value of an operand.
    pub fn value_of(&self, operand: Operand) -> (v: u128)
        ensures
            v == self@.value_of(operand),
    {
        match operand {
            Operand::Literal(value) => value as u128,
            Operand::A => self.a,
            Operand::B => self.b,
            Operand::C => self.c,
        }
    }

    /// The instruction at the pointer and its operand, if the pointer
    /// points at them.
    pub fn fetch(&self) -> (r: Option<(Instruction, Operand)>)
        ensures
            r == self@.fetch(),
    {
        if self.ip >= self.ram.len() || self.ip + 1 >= self.ram.len() {
            return None;
        }
        match Instruction::from_byte(self.ram[self.ip]) {
            Some(i) => {
                let byte = self.ram[self.ip + 1];
                let operand = if i.is_literally_literal() {
                    Some(Operand::Literal(byte))
                } else {
                    Operand::from_byte(byte)
                };
                match operand {
                    Some(o) => Some((i, o)),
                    None => None,
                }
            },
            None => None,
        }
    }

    /// Makes one step: executes the instruction at the pointer, or halts
    /// where there is none.
    pub fn step(&mut self)
        ensures
            final(self)@ == old(self)@.step(),
    {
        if self.halted {
            return ;
        }
        let (instruction, operand) = match self.fetch() {
            Some(pair) => pair,
            None => {
                self.halted = true;
                return ;
            },
        };
        assert(self.ip + 1 < self.ram.len());
        let v = self.value_of(operand);
        match instruction {
            Instruction::Adv => {
                self.a = shift_right(self.a, v);
            },
            Instruction::Bxl => {
                self.b = self.b ^ v;
            },
            Instruction::Bst => {
                self.b = v & 7;
            },
            Instruction::Jnz => {
                if self.a != 0 {
                    self.ip = v as usize;
                    return ;
                }
            },
            Instruction::Bxc => {
                self.b = self.b ^ self.c;
            },
            Instruction::Out => {
                assert(v & 7 <= 7) by (bit_vector);
                self.output.push((v & 7) as u8);
            },
            Instruction::Bdv => {
                self.b = shift_right(self.a, v);
            },
            Instruction::Cdv => {
                self.c = shift_right(self.a, v);
            },
        }
        self.ip = self.ip + 2;
    }

    /// Makes steps until the machine halts, `STEP_LIMIT` at most.
    pub fn run(&mut self)
        ensures
            final(self)@ == old(self)@.run(STEP_LIMIT as nat),
    {
        let mut left: u64 = STEP_LIMIT;
        while left > 0 && !self.halted
            invariant
                self@.run(left as nat) == old(self)@.run(STEP_LIMIT as nat),
            decreases left,
        {
            self.step();
            left = left - 1;
        }
    }
}

/// The last word of a line: what follows its last blank.
pub open spec fn last_word(line: Seq<char>) -> Option<Seq<char>> {
    tail_after(line, ' ', line.len() as int)
}

/// The number that the last word of a line denotes.
pub open spec fn register_of(line: Seq<char>) -> Option<u128> {
    match last_word(line) {
        Some(w) => match number_up_to(w, u128::MAX as nat) {
            Some(n) => Some(n as u128),
            None => None,
        },
        None => None,
    }
}

/// The bytes that the last word of a line lists, with commas between them.
pub open spec fn program_of(line: Seq<char>) -> Option<Seq<u8>> {
    match last_word(line) {
        Some(w) => bytes_of(split_seq(w, ',')),
        None => None,
    }
}

/// The machine that a text describes: the last words of its first three
/// lines are the registers, and the last word of its fifth line is the
/// program.
pub open spec fn machine_of(text: Seq<char>) -> Option<MachineView> {
    let ls = split_lines(text);
    if ls.len() >= 5 && register_of(ls[0]) is Some && register_of(ls[1]) is Some && register_of(
        ls[2],
    ) is Some && program_of(ls[4]) is Some {
        Some(
            MachineView {
                a: register_of(ls[0])->0,
                b: register_of(ls[1])->0,
                c: register_of(ls[2])->0,
                ip: 0,
                ram: program_of(ls[4])->0,
                halted: false,
                output: Seq::empty(),
            },
        )
    } else {
        None
    }
}

/// Reads the number that the last word of a line denotes.
pub fn parse_register(line: &Vec<char>) -> (r: Option<u128>)
    ensures
        r == register_of(line@),
{
    match after_last(line, ' ') {
        Some(w) => parse_up_to(&w, u128::MAX),
        None => None,
    }
}

/// Reads the description of a machine, if the text is one.
pub fn parse_machine(input: &str) -> (r: Option<Machine>)
    ensures
        match r {
            Some(m) => machine_of(input@) == Some(m@),
            None => machine_of(input@) is None,
        },
{
    let chars = chars_of(input);
    let rows = lines(&chars);
    if rows.len() < 5 {
        return None;
    }
    proof {
        assert(views(rows@)[0] == rows[0]@);
        assert(views(rows@)[1] == rows[1]@);
        assert(views(rows@)[2] == rows[2]@);
        assert(views(rows@)[4] == rows[4]@);
    }
    let a = parse_register(&rows[0]);
    let b = parse_register(&rows[1]);
    let c = parse_register(&rows[2]);
    let ram = match after_last(&rows[4], ' ') {
        Some(w) => parse_bytes(&w),
        None => None,
    };
    match (a, b, c, ram) {
        (Some(a), Some(b), Some(c), Some(ram)) => Some(
            Machine { a, b, c, ip: 0, ram, halted: false, output: Vec::new() },
        ),
        _ => None,
    }
}

/// Reads the description of a machine. The text must be one.
pub fn parse(input: &str) -> (m: Machine)
    requires
        machine_of(input@) is Some,
    ensures
        machine_of(input@) == Some(m@),
{
    match parse_machine(input) {
        Some(m) => m,
        None => unreached(),
    }
}

/// One line of a listing: the name of the instruction, a blank, the
/// operand, and a line feed.
pub open spec fn listed(i: Instruction, o: Operand) -> Seq<char> {
    (i.name().push(' ') + o.text()).push('\n')
}

/// The listing of a program: one line for every two bytes. `None` where
/// two bytes do not stand for an instruction with its operand, or where a
/// byte is left over.
pub open spec fn listing(ram: Seq<u8>) -> Option<Seq<char>>
    decreases ram.len(),
{
    if ram.len() == 0 {
        Some(Seq::empty())
    } else if ram.len() == 1 {
        None
    } else {
        let before = listing(ram.take(ram.len() - 2));
        let i = instruction_of(ram[ram.len() - 2]);
        if before is Some && i is Some && operand_of(i->0, ram.last()) is Some {
            Some(before->0 + listed(i->0, operand_of(i->0, ram.last())->0))
        } else {
            None
        }
    }
}

impl Machine {
    /// The listing of the program in the memory. The memory must hold
    /// instructions with their operands and nothing else.
    pub fn decompile(&self) -> (r: String)
        requires
            listing(self.ram@) is Some,
        ensures
            Some(r@) == listing(self.ram@),
    {
        let mut out: Vec<char> = Vec::new();
        let mut i: usize = 0;
        proof {
            lemma_listing_even(self.ram@);
        }
        while i < self.ram.len()
            invariant
                i <= self.ram.len(),
                i % 2 == 0,
                self.ram.len() % 2 == 0,
                listing(self.ram@) is Some,
                listing(self.ram@.take(i as int)) == Some(out@),
            decreases self.ram.len() - i,
        {
            proof {
                lemma_listing_prefix(self.ram@, i + 2);
                assert(self.ram@.take(i + 2).take(i as int) =~= self.ram@.take(i as int));
            }
            let instruction = match Instruction::from_byte(self.ram[i]) {
                Some(x) => x,
                None => unreached(),
            };
            let byte = self.ram[i + 1];
            let operand = if instruction.is_literally_literal() {
                Operand::Literal(byte)
            } else {
                match Operand::from_byte(byte) {
                    Some(x) => x,
                    None => unreached(),
                }
            };
            let name = instruction.mnemonic();
            let what = operand.written();
            append_chars(&mut out, &name);
            out.push(' ');
            append_chars(&mut out, &what);
            out.push('\n');
            proof {
                assert(out@ =~= listing(self.ram@.take(i as int))->0 + listed(
                    instruction,
                    operand,
                ));
            }
            i = i + 2;
        }
        proof {
            assert(self.ram@.take(self.ram.len() as int) =~= self.ram@);
        }
        string_from_chars(&out)
    }
}

/// A program with a listing has an even number of bytes.
pub proof fn lemma_listing_even(ram: Seq<u8>)
    requires
        listing(ram) is Some,
    ensures
        ram.len() % 2 == 0,
    decreases ram.len(),
{
    if ram.len() >= 2 {
        lemma_listing_even(ram.take(ram.len() - 2));
    }
}

/// Where a program has a listing, so has every prefix of it of even
/// length.
pub proof fn lemma_listing_prefix(ram: Seq<u8>, k: int)
    requires
        0 <= k <= ram.len(),
        k % 2 == 0,
        listing(ram) is Some,
    ensures
        listing(ram.take(k)) is Some,
    decreases ram.len(),
{
    lemma_listing_even(ram);
    if k == ram.len() {
        assert(ram.take(k) =~= ram);
    } else {
        lemma_listing_prefix(ram.take(ram.len() - 2), k);
        assert(ram.take(ram.len() - 2).take(k) =~= ram.take(k));
    }
}

/// What the machine puts out when it runs with `a` in its first
/// register.
pub open spec fn output_for(m: MachineView, a: u128) -> Seq<u8> {
    MachineView {
        a,
        b: m.b,
        c: m.c,
        ip: m.ip,
        ram: m.ram,
        halted: m.halted,
        output: m.output,
    }.run(STEP_LIMIT as nat).output
}

/// The number found for the bytes of the program from byte `index` down
/// to the first, three bits for each, when the bits for the bytes behind
/// `index` are `a` and the values below `tribble` have been tried for
/// byte `index`. A value fits where the machine, run with the bits so
/// far, first puts out byte `index` of the program; the values are tried
/// in ascending order, and the first that fits and leads to a number for
/// the bytes before is taken.
pub open spec fn backtracked(m: MachineView, a: u128, index: nat, tribble: nat) -> Option<u128>
    decreases index, 8 - tribble,
{
    if tribble >= 8 || index >= m.ram.len() {
        None
    } else {
        let next_a = (a << 3) | (tribble as u128);
        let out = output_for(m, next_a);
        let below = if out.len() > 0 && out[0] == m.ram[index as int] {
            if index == 0 {
                Some(next_a)
            } else {
                backtracked(m, next_a, (index - 1) as nat, 0)
            }
        } else {
            None
        };
        match below {
            Some(found) => Some(found),
            None => backtracked(m, a, index, tribble + 1),
        }
    }
}

/// The number found for the bytes of the program from byte `index` down
/// to the first, when the bits for the bytes behind `index` are `a`.
pub fn backtrack_from(input: &Machine, a: u128, index: usize) -> (r: Option<u128>)
    requires
        index < input.ram.len(),
    ensures
        r == backtracked(input@, a, index as nat, 0),
    decreases index,
{
    let mut tribble: u8 = 0;
    while tribble < 8
        invariant
            tribble <= 8,
            index < input.ram.len(),
            backtracked(input@, a, index as nat, 0) == backtracked(
                input@,
                a,
                index as nat,
                tribble as nat,
            ),
        decreases 8 - tribble,
    {
        let next_a: u128 = (a << 3) | (tribble as u128);
        let mut machine = Machine {
            a: next_a,
            b: input.b,
            c: input.c,
            ip: input.ip,
            ram: input.ram.clone(),
            halted: input.halted,
            output: input.output.clone(),
        };
        machine.run();
        assert(machine.output@ == output_for(input@, next_a));
        if machine.output.len() > 0 && machine.output[0] == input.ram[index] {
            if index == 0 {
                return Some(next_a);
            }
            match backtrack_from(input, next_a, index - 1) {
                Some(found) => {
                    return Some(found);
                },
                None => {},
            }
        }
        tribble += 1;
    }
    None
}

/// A number for the first register with which the machine puts out its
/// own program, found three bits at a time from the last byte of the
/// program to the first; `None` where the program is empty or no number
/// is found.
pub fn part2_backtrack(input: &Machine) -> (r: Option<u128>)
    ensures
        r == if input.ram@.len() == 0 {
            None
        } else {
            backtracked(input@, 0, (input.ram@.len() - 1) as nat, 0)
        },
{
    if input.ram.len() == 0 {
        return None;
    }
    backtrack_from(input, 0, input.ram.len() - 1)
}

} // verus!
