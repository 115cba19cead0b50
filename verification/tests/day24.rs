use advent_of_rust_2024::day24::part2::solve_day_24_part_02;
use advent_of_rust_2024::day24::part2::Machine;
use advent_of_rust_2024::day24::part2::Operator;
use advent_of_rust_2024::day24::part2::Wire;
use advent_of_rust_2024::util::order::sort_texts;
use advent_of_rust_2024::util::text::chars_of;

const ADDER: &str = "x00: 1
x01: 1
y00: 1
y01: 0

x00 XOR y00 -> z00
x00 AND y00 -> c00
x01 XOR y01 -> a01
x01 AND y01 -> n01
a01 AND c00 -> r01
a01 XOR c00 -> z01
n01 OR r01 -> z02";

fn text(s: &str) -> Vec<char> {
    chars_of(s)
}

#[test]
fn machine_adds() {
    let machine = Machine::parse(ADDER).unwrap();
    assert_eq!(3, machine.value_of_prefixed('x'));
    assert_eq!(1, machine.value_of_prefixed('y'));
    assert_eq!(4, machine.value_of_prefixed('z'));
    assert_eq!(Ok(4), machine.value_of_prefixed_loopcheck('z'));
    assert_eq!(Err(()), machine.value_of_prefixed_loopcheck('q'));
    assert!(machine.value_of("x00"));
    assert!(!machine.value_of("z00"));
    assert!(machine.value_of("c00"));
    assert!(machine.value_of("z02"));
    assert_eq!(Ok(false), machine.value_of_loopcheck("z01"));
    assert_eq!(Err(()), machine.value_of_loopcheck("z03"));
    assert_eq!(Some(Wire::Input(false)), machine.wire("y01"));
    assert_eq!(Some(Wire::Function(Operator::Or, text("n01"), text("r01"))), machine.wire("z02"));
    assert_eq!(None, machine.wire("zzz"));
    assert_eq!(&text("a01"), machine.wire_name("a01"));
    assert_eq!(2, machine.count_wires('x'));
    assert_eq!(3, machine.count_wires('z'));
    assert_eq!(11, machine.wires().len());
    assert_eq!(text("x00"), machine.wires()[0]);
    assert_eq!(text("z02"), machine.wires()[10]);
}

#[test]
fn wires_that_depend_on_themselves_have_no_value() {
    let machine = Machine::parse("a AND b -> c\nc OR a -> b\na: 1\nz1: 1\na XOR d -> z0").unwrap();
    assert_eq!(Ok(true), machine.value_of_loopcheck("a"));
    assert_eq!(Err(()), machine.value_of_loopcheck("b"));
    assert_eq!(Err(()), machine.value_of_loopcheck("c"));
    assert_eq!(Err(()), machine.value_of_loopcheck("z0"));
    assert_eq!(Err(()), machine.value_of_prefixed_loopcheck('z'));
    assert_eq!(Ok(1), machine.value_of_prefixed_loopcheck('a'));
    assert_eq!(None, machine.evaluate(&text("a"), 0));
    assert_eq!(Some(true), machine.evaluate(&text("a"), 1));
}

#[test]
fn swapping_wires() {
    let mut machine = Machine::parse(ADDER).unwrap();
    machine.swap("z00", "z02");
    assert_eq!(Some(Wire::Function(Operator::Or, text("n01"), text("r01"))), machine.wire("z00"));
    assert_eq!(Some(Wire::Function(Operator::Xor, text("x00"), text("y00"))), machine.wire("z02"));
    assert_eq!(1, machine.value_of_prefixed('z'));
    machine.swap("z00", "z00");
    assert_eq!(1, machine.value_of_prefixed('z'));
    machine.insert(text("x00"), Wire::Input(false));
    assert_eq!(2, machine.value_of_prefixed('x'));
    assert_eq!(11, machine.wires().len());
    machine.insert(text("x02"), Wire::Input(true));
    assert_eq!(6, machine.value_of_prefixed('x'));
    assert_eq!(12, machine.wires().len());
}

#[test]
fn descriptions_of_machines() {
    assert!(Machine::parse("").is_some());
    assert!(Machine::parse("a:1").is_none());
    assert!(Machine::parse("a AND b -> ").is_none());
    assert!(Machine::parse("a NOT b -> c").is_none());
    let odd = Machine::parse("a: 1 \nb: 0\nany line\n  b   xor\ta sets  c trailing ->").unwrap();
    assert_eq!(Some(Wire::Input(false)), odd.wire("a"));
    assert_eq!(Some(Wire::Function(Operator::Xor, text("b"), text("a"))), odd.wire("c"));
    assert_eq!(Some(Operator::And), Operator::from_name(&text("aNd")));
    assert_eq!(Some(Operator::Or), Operator::from_name(&text("OR")));
    assert_eq!(Some(Operator::Xor), Operator::from_name(&text("xor")));
    assert_eq!(None, Operator::from_name(&text("nor")));
    assert_eq!(None, Operator::from_name(&text("")));
    assert!(Operator::Xor.apply(true, false));
    assert!(!Operator::Xor.apply(true, true));
    assert!(!Operator::And.apply(true, false));
    assert!(Operator::Or.apply(false, true));
}

#[test]
fn an_adder_without_swaps_needs_no_repair() {
    assert_eq!("", solve_day_24_part_02(ADDER));
}

#[test]
fn swapped_outputs_are_found() {
    let broken = ADDER.replace("a01 AND c00 -> r01", "a01 AND c00 -> z01").replace("a01 XOR c00 -> z01", "a01 XOR c00 -> r01");
    assert_eq!("r01,z01", solve_day_24_part_02(&broken));
    let crossed = ADDER.replace("x01 XOR y01 -> a01", "x01 XOR y01 -> n01").replace("x01 AND y01 -> n01", "x01 AND y01 -> a01");
    assert_eq!("a01,n01", solve_day_24_part_02(&crossed));
}

#[test]
fn texts_are_sorted_as_in_a_dictionary() {
    let sorted = sort_texts(vec![text("z10"), text("b"), text("z1"), text(""), text("B"), text("b"), text("az")]);
    let strings: Vec<String> = sorted.iter().map(|t| t.iter().collect()).collect();
    assert_eq!(vec!["", "B", "az", "b", "b", "z1", "z10"], strings);
}

#[test]
fn should_solve_day_24_part_01_sample() {
    let input = "
x00: 1
x01: 1
x02: 1
y00: 0
y01: 1
y02: 0

x00 AND y00 -> z00
x01 XOR y01 -> z01
x02 OR y02 -> z02"
        .trim();

    assert_eq!(4, advent_of_rust_2024::day24::part1::solve_day_24_part_01(input));
}

#[test]
fn output_wires_count_by_their_place() {
    use_places();
}

fn use_places() {
    let solve = advent_of_rust_2024::day24::part1::solve_day_24_part_01;
    assert_eq!(0, solve(""));
    assert_eq!(0, solve("a: 1"));
    assert_eq!(1 << 63, solve("z63: 1\nz05: 0"));
    assert_eq!((1 << 9) + (1 << 7) + (1 << 3) + 1, solve("z7: 1\nz03: 1\nz000: 1\none: 1\non: 1\none AND on -> z09\na: 0\nz09 AND a -> z10"));
    assert_eq!(4, solve(ADDER));
    assert_eq!(1, advent_of_rust_2024::day24::part1::power_of_two(0));
    assert_eq!(1 << 40, advent_of_rust_2024::day24::part1::power_of_two(40));
}

const SMALL: &str = "x00: 1
y00: 0

x00 XOR y00 -> z00
x00 AND y00 -> c00
c00 OR z00 -> z01";

fn texts(names: &[&str]) -> Vec<Vec<char>> {
    names.iter().map(|n| n.chars().collect()).collect()
}

#[test]
fn formula_of_a_wire_is_written_out_to_the_inputs() {
    let machine = Machine::parse(SMALL).unwrap();
    assert_eq!(Some("x00=true".to_string()), machine.function_for("x00"));
    assert_eq!(Some("y00=false".to_string()), machine.function_for("y00"));
    assert_eq!(Some("z00=(Xor x00=true y00=false)".to_string()), machine.function_for("z00"));
    assert_eq!(
        Some("z01=(Or c00=(And x00=true y00=false) z00=(Xor x00=true y00=false))".to_string()),
        machine.function_for("z01")
    );
    assert_eq!(None, machine.function_for("z02"));
    let round = Machine::parse("a AND b -> a\nb: 1").unwrap();
    assert_eq!(None, round.function_for("a"));
    assert_eq!(None, machine.formula_of(&"z01".chars().collect(), 2));
    assert!(machine.formula_of(&"z01".chars().collect(), 3).is_some());
}

#[test]
fn wire_depends_on_what_it_reads_and_so_on() {
    let machine = Machine::parse(SMALL).unwrap();
    assert!(machine.is_sound());
    assert_eq!(texts(&["x00"]), machine.depends_on("x00"));
    assert_eq!(texts(&["z00", "x00", "y00"]), machine.depends_on("z00"));
    assert_eq!(texts(&["z01", "c00", "z00", "x00", "y00"]), machine.depends_on("z01"));
    let round = Machine::parse("a AND b -> a\nb: 1\nb OR b -> c").unwrap();
    assert!(round.is_sound());
    assert_eq!(texts(&["a", "b"]), round.depends_on("a"));
    assert_eq!(texts(&["c", "b"]), round.depends_on("c"));
    assert!(!Machine::parse("a AND b -> c\na: 1").unwrap().is_sound());
}

#[test]
fn machine_is_drawn_group_by_group() {
    let machine = Machine::parse(SMALL).unwrap();
    let first = "  subgraph cluster_z00 {
    label=\"z00\";

    z00 [label=\"z00=Xor\"];
    z00 -> x00;
    z00 -> y00;
    x00 [label=\"x00=true\"];

    y00 [label=\"y00=false\"];

    z00 [label=\"z00=Xor\"];
    z00 -> x00;
    z00 -> y00;

  }
";
    let second = "  subgraph cluster_z01 {
    label=\"z01\";

    z01 [label=\"z01=Or\"];
    z01 -> c00;
    z01 -> z00;
    c00 [label=\"c00=And\"];
    c00 -> x00;
    c00 -> y00;

    z01 [label=\"z01=Or\"];
    z01 -> c00;
    z01 -> z00;

  }
";
    let head = "digraph {\n  compounded=true;\n  rankdir=LR;\n";
    assert_eq!(format!("{head}}}\n"), machine.to_graphviz_limited(0));
    assert_eq!(format!("{head}{first}}}\n"), machine.to_graphviz_limited(1));
    assert_eq!(format!("{head}{first}{second}}}\n"), machine.to_graphviz_limited(2));
    assert_eq!(machine.to_graphviz_limited(45), machine.to_graphviz());
    assert_eq!(machine.to_graphviz_limited(2), machine.to_graphviz());
    assert_eq!(
        "    c00 [label=\"c00=And\"];\n    c00 -> x00;\n    c00 -> y00;\n",
        machine.wire_to_graphviz(&"c00".chars().collect()).iter().collect::<String>()
    );
}

#[test]
fn output_that_another_output_reads_has_its_group_before() {
    let machine = Machine::parse("a: 1\na AND a -> z1\nz1 OR a -> z0").unwrap();
    let drawing = machine.to_graphviz();
    let expected = "digraph {
  compounded=true;
  rankdir=LR;
  subgraph cluster_z0 {
    label=\"z0\";

    z0 [label=\"z0=Or\"];
    z0 -> z1;
    z0 -> a;
    a [label=\"a=true\"];

    z0 [label=\"z0=Or\"];
    z0 -> z1;
    z0 -> a;

    z1 [label=\"z1=And\"];
    z1 -> a;
    z1 -> a;

  }
}
";
    assert_eq!(expected, drawing);
}
