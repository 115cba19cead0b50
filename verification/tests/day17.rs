use advent_of_rust_2024::day17::part1::advance;
use advent_of_rust_2024::day17::part1::execute;
use advent_of_rust_2024::day17::part1::parse;
use advent_of_rust_2024::day17::part1::solve_day_17_part_01;
use advent_of_rust_2024::day17::part1::OpCode;
use advent_of_rust_2024::day17::part1::TuringState;
use advent_of_rust_2024::day17::part1::TuringTape;
use advent_of_rust_2024::day17::part2::backtrack_from;
use advent_of_rust_2024::day17::part2::parse_machine;
use advent_of_rust_2024::day17::part2::part2_backtrack;
use advent_of_rust_2024::day17::part2::Instruction;
use advent_of_rust_2024::day17::part2::Machine;
use advent_of_rust_2024::day17::part2::Operand;
use advent_of_rust_2024::util::text::chars_of;

const EXAMPLE_INPUT: &str = "
Register A: 729
Register B: 0
Register C: 0

Program: 0,1,5,4,3,0
";

fn tape(text: &str) -> TuringTape {
    TuringTape::parse(&chars_of(text)).unwrap()
}

#[test]
fn should_solve_day_17_part_01_sample() {
    let input = EXAMPLE_INPUT.trim();

    assert_eq!("4,6,3,5,6,3,5,2,1,0".to_string(), solve_day_17_part_01(input));
}

#[test]
fn should_parse_the_example() {
    let input = EXAMPLE_INPUT.trim();
    let state = TuringState::new_all(729, 0, 0, 0, Vec::new());
    let tape: TuringTape = tape("0,1,5,4,3,0");

    assert_eq!(Some((tape, state)), parse(input));
}

#[test]
fn should_match_example_1() {
    // arrange
    let state = TuringState::new(0, 0, 9);
    let tape: TuringTape = tape("2,6");

    // act
    let state = advance(&tape, state);

    // assert
    let expected = TuringState::new_all(0, 1, 9, 1, Vec::new());
    assert_eq!(expected, state);
}

#[test]
fn should_match_example_2() {
    let input = "
Register A: 10
Register B: 0
Register C: 0

Program: 5,0,5,1,5,4
";

    assert_eq!("0,1,2".to_string(), solve_day_17_part_01(input));
}

#[test]
fn should_adv() {
    // arrange
    let state = TuringState::new(4, 0, 0);

    // act
    let final_state = state.advance(&OpCode::Adv, &2);

    // assert
    let expected = TuringState::new_all(1, 0, 0, 1, Vec::new());
    assert_eq!(expected, final_state);
}

#[test]
fn should_bxl() {
    // arrange
    let state = TuringState::new(0, 5, 0);

    // act
    let final_state = state.advance(&OpCode::Bxl, &6);

    // assert
    let expected = TuringState::new_all(0, 3, 0, 1, Vec::new());
    assert_eq!(expected, final_state);
}

#[test]
fn should_bst() {
    // arrange
    let state = TuringState::new(10, 0, 0);

    // act
    let final_state = state.advance(&OpCode::Bst, &4);

    // assert
    let expected = TuringState::new_all(10, 2, 0, 1, Vec::new());
    assert_eq!(expected, final_state);
}

#[test]
fn should_jnz_with_0_in_reg_a() {
    // arrange
    let state = TuringState::new(0, 0, 0);

    // act
    let final_state = state.advance(&OpCode::Jnz, &123);

    // assert
    let expected = TuringState::new_all(0, 0, 0, 1, Vec::new());
    assert_eq!(expected, final_state);
}

#[test]
fn should_jnz_with_5_in_reg_a() {
    // arrange
    let state = TuringState::new(5, 0, 0);

    // act
    let final_state = state.advance(&OpCode::Jnz, &123);

    // assert
    let expected = TuringState::new_all(5, 0, 0, 123, Vec::new());
    assert_eq!(expected, final_state);
}

#[test]
fn should_bxc() {
    // arrange
    let state = TuringState::new(0, 5, 6);

    // act
    let final_state = state.advance(&OpCode::Bxc, &5);

    // assert
    let expected = TuringState::new_all(0, 3, 6, 1, Vec::new());
    assert_eq!(expected, final_state);
}

#[test]
fn should_out() {
    // arrange
    let state = TuringState::new(0, 0, 0);

    // act
    let final_state = state.advance(&OpCode::Out, &3);

    // assert
    let expected = TuringState::new_all(0, 0, 0, 1, vec![3]);
    assert_eq!(expected, final_state);
}

#[test]
fn should_bdv() {
    // arrange
    let state = TuringState::new(4, 0, 0);

    // act
    let final_state = state.advance(&OpCode::Bdv, &2);

    // assert
    let expected = TuringState::new_all(4, 1, 0, 1, Vec::new());
    assert_eq!(expected, final_state);
}

#[test]
fn should_cdv() {
    // arrange
    let state = TuringState::new(4, 0, 0);

    // act
    let final_state = state.advance(&OpCode::Cdv, &2);

    // assert
    let expected = TuringState::new_all(4, 0, 1, 1, Vec::new());
    assert_eq!(expected, final_state);
}

#[test]
fn shifts_beyond_the_register_give_zero() {
    let state = TuringState::new_all(u32::MAX, 40, 0, 0, Vec::new());
    let after = state.advance(&OpCode::Adv, &5);
    assert_eq!(TuringState::new_all(0, 40, 0, 1, Vec::new()), after);
}

#[test]
fn tape_ignores_a_number_left_over() {
    assert_eq!(vec![(OpCode::Adv, 1u8), (OpCode::Out, 4u8)], tape("0,1,5,4,3").0);
    assert_eq!(0, tape("7").0.len());
    assert!(TuringTape::parse(&chars_of("8,1")).is_none());
    assert!(TuringTape::parse(&chars_of("1,256")).is_none());
    assert!(TuringTape::parse(&chars_of("1,,2")).is_none());
    assert!(TuringTape::parse(&chars_of("")).is_none());
}

#[test]
fn description_needs_all_registers() {
    assert!(parse("Register A: 1\nRegister B: 2\nProgram: 0,1").is_none());
    assert!(parse("Register A: 1\nRegister B: 2\nRegister C: x\nProgram: 0,1").is_none());
    assert!(parse("Register A: 1\nRegister B: 2\nRegister C: 4294967296").is_none());
    let (tape, state) = parse("Register A: 1\nRegister B: 2\nRegister C: 3").unwrap();
    assert_eq!(0, tape.0.len());
    assert_eq!(TuringState::new_all(1, 2, 3, 0, Vec::new()), state);
}

#[test]
fn run_stops_where_the_pointer_leaves_the_tape() {
    let end = execute(&tape("5,0,5,1,5,4"), TuringState::new(10, 0, 0));
    assert_eq!(TuringState::new_all(10, 0, 0, 3, vec![0, 1, 2]), end);
    let jumped = execute(&tape("3,9"), TuringState::new(1, 0, 0));
    assert_eq!(9, jumped.pointer);
}

#[test]
fn machine_runs_the_example() {
    let mut machine = parse_machine(EXAMPLE_INPUT.trim()).unwrap();
    assert_eq!(729, machine.a);
    assert_eq!(vec![0u8, 1, 5, 4, 3, 0], machine.ram);
    machine.run();
    assert!(machine.halted);
    assert_eq!(vec![4u8, 6, 3, 5, 6, 3, 5, 2, 1, 0], machine.output);
}

#[test]
fn machine_steps() {
    let mut m = Machine { a: 2024, b: 0, c: 0, ip: 0, ram: vec![0, 3, 5, 4, 3, 0], ..Default::default() };
    m.step();
    assert_eq!((253, 2), (m.a, m.ip));
    m.step();
    assert_eq!((vec![5u8], 4), (m.output.clone(), m.ip));
    m.step();
    assert_eq!(0, m.ip);
    let mut n = Machine { a: 5, b: 6, c: 3, ip: 0, ram: vec![4, 0, 1, 7, 2, 6, 6, 1, 7, 5], ..Default::default() };
    n.step();
    assert_eq!(5, n.b);
    n.step();
    assert_eq!(2, n.b);
    n.step();
    assert_eq!(3, n.b);
    n.step();
    assert_eq!(2, n.b);
    n.step();
    assert_eq!(5 >> 2, n.c);
    n.step();
    assert!(n.halted);
    assert_eq!(10, n.ip);
    n.step();
    assert!(n.halted);
}

#[test]
fn machine_halts_on_what_is_no_instruction() {
    let mut bad = Machine { ram: vec![8, 0], ..Default::default() };
    bad.step();
    assert!(bad.halted);
    let mut reserved = Machine { ram: vec![0, 7], ..Default::default() };
    reserved.step();
    assert!(reserved.halted);
    let mut odd = Machine { ram: vec![0], ..Default::default() };
    odd.step();
    assert!(odd.halted);
    let mut huge = Machine { a: 7, b: 200, ram: vec![0, 5], ..Default::default() };
    huge.step();
    assert_eq!(0, huge.a);
    assert!(!huge.halted);
}

#[test]
fn machine_lists_its_program() {
    let machine = parse_machine(EXAMPLE_INPUT.trim()).unwrap();
    assert_eq!("Adv 1\nOut A\nJnz 0\n", machine.decompile());
    let other = Machine { ram: vec![1, 7, 2, 6, 4, 9, 6, 5, 7, 3], ..Default::default() };
    assert_eq!("Bxl 7\nBst C\nBxc 9\nBdv B\nCdv 3\n", other.decompile());
    assert_eq!(Some(Instruction::Cdv), Instruction::from_byte(7));
    assert_eq!(None, Instruction::from_byte(8));
    assert_eq!(Some(Operand::Literal(3)), Operand::from_byte(3));
    assert_eq!(Some(Operand::A), Operand::from_byte(4));
    assert_eq!(None, Operand::from_byte(7));
    assert!(Instruction::Jnz.is_literally_literal());
    assert!(!Instruction::Out.is_literally_literal());
}

#[test]
fn machine_description_must_be_complete() {
    assert!(parse_machine("Register A: 1\nRegister B: 2\nRegister C: 3\n\n").is_none());
    assert!(parse_machine("Register A: 1\nRegister B: 2\nRegister C: 3\n\nProgram: 1,300").is_none());
    assert!(parse_machine("A:1\nRegister B: 2\nRegister C: 3\n\nProgram: 1,3").is_none());
    let m = parse_machine("a 1\nb 2\nc 3\nanything\np 1,3\nmore").unwrap();
    assert_eq!((1, 2, 3), (m.a, m.b, m.c));
    assert_eq!(vec![1u8, 3], m.ram);
}

#[test]
fn backtracking_finds_the_number_that_copies_the_program() {
    let machine =
        parse_machine("Register A: 2024\nRegister B: 0\nRegister C: 0\n\nProgram: 0,3,5,4,3,0")
            .unwrap();
    let found = part2_backtrack(&machine);
    assert_eq!(Some(117440), found);
    let mut copy = machine.clone();
    copy.a = 117440;
    copy.run();
    assert_eq!(machine.ram, copy.output);
}

#[test]
fn backtracking_tries_the_values_in_ascending_order() {
    let machine = parse_machine("Register A: 0\nRegister B: 0\nRegister C: 0\n\nProgram: 5,4").unwrap();
    assert_eq!(Some(5), backtrack_from(&machine, 0, 0));
    assert_eq!(Some(13), backtrack_from(&machine, 1, 0));
    assert_eq!(Some(37), backtrack_from(&machine, 0, 1));
    assert_eq!(Some(37), part2_backtrack(&machine));
}

#[test]
fn backtracking_finds_nothing_for_a_silent_program() {
    let silent = parse_machine("Register A: 0\nRegister B: 0\nRegister C: 0\n\nProgram: 1,0").unwrap();
    assert_eq!(None, part2_backtrack(&silent));
    let mut empty = silent.clone();
    empty.ram = Vec::new();
    assert_eq!(None, part2_backtrack(&empty));
}
