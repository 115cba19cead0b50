use advent_of_rust_2024::day23::part1::build;
use advent_of_rust_2024::day23::part1::parse_link;
use advent_of_rust_2024::day23::part1::parse_network;
use advent_of_rust_2024::day23::part1::solve_day_23_part_01;
use advent_of_rust_2024::day23::part1::to_char_tupel;
use advent_of_rust_2024::day23::part1::Graph;
use advent_of_rust_2024::day23::part1::Link;
use advent_of_rust_2024::day23::part2::largest_clique;
use advent_of_rust_2024::day23::part2::password_of;
use advent_of_rust_2024::day23::part2::solve_day_23_part_02;
use advent_of_rust_2024::day23::part2::solve_day_23_part_02_with_hacky_shit_solution;

#[test]
fn part1_example() {
    let input = "kh-tc
qp-kh
de-cg
ka-co
yn-aq
qp-ub
cg-tb
vc-aq
tb-ka
wh-tc
yn-cg
kh-ub
ta-co
de-co
tc-td
tb-wq
wh-td
ta-ka
td-qp
aq-cg
wq-ub
ub-vc
de-ta
wq-aq
wq-vc
wh-yn
ka-de
kh-ta
co-tc
wh-qp
tb-vc
td-yn"
        .trim();
    assert_eq!(7, solve_day_23_part_01(input));
}

#[test]
fn group_of_three_needs_a_name_that_begins_with_t() {
    assert_eq!(0, solve_day_23_part_01("ab-cd\ncd-ef\nef-ab"));
    assert_eq!(1, solve_day_23_part_01("ab-cd\ncd-tf\ntf-ab"));
    assert_eq!(1, solve_day_23_part_01("ab-cd\ncd-at\nat-ab\nta-cd\nta-ab"));
    assert_eq!(0, solve_day_23_part_01("ta-tb\ntb-tc"));
    assert_eq!(0, solve_day_23_part_01(""));
}

#[test]
fn group_is_counted_once_however_often_its_links_are_named() {
    assert_eq!(1, solve_day_23_part_01("ta-bb\nbb-cc\ncc-ta\nta-cc\nbb-ta\n"));
    assert_eq!(4, solve_day_23_part_01("ta-tb\ntb-tc\ntc-ta\ntd-ta\ntd-tb\ntd-tc"));
}

#[test]
fn computer_tied_to_itself_stands_twice_in_a_group() {
    assert_eq!(1, solve_day_23_part_01("ta-ta"));
    assert_eq!(2, solve_day_23_part_01("ta-ta\nta-bb"));
    assert_eq!(0, solve_day_23_part_01("aa-aa\naa-bb"));
}

#[test]
fn graph_numbers_the_computers_as_they_come() {
    let graph = Graph::new().add_edge(('k', 'h'), ('t', 'c')).add_edge(('q', 'p'), ('k', 'h'));
    assert_eq!(vec![('k', 'h'), ('t', 'c'), ('q', 'p')], graph.nodes);
    assert_eq!(vec![vec![1, 2], vec![0], vec![0]], graph.linked);
    assert_eq!(0, graph.find(('k', 'h')));
    assert_eq!(3, graph.find(('h', 'k')));
    assert!(graph.is_connected(0, 2) && graph.is_connected(2, 0) && !graph.is_connected(1, 2));
    assert!(graph.is_chief(1) && !graph.is_chief(0));
    let twice = Graph::new().add_edge(('a', 'a'), ('a', 'a'));
    assert_eq!(vec![vec![0, 0]], twice.linked);
}

#[test]
fn line_of_a_network_names_two_computers() {
    let chars = |s: &str| s.chars().collect::<Vec<char>>();
    assert_eq!(Some(Link { from: ('a', 'b'), to: ('c', 'd') }), parse_link(&chars("ab-cd")));
    assert_eq!(Some(Link { from: ('a', 'b'), to: ('-', 'd') }), parse_link(&chars("ab--d")));
    assert_eq!(None, parse_link(&chars("a--cd")));
    assert_eq!(None, parse_link(&chars("ab-cde")));
    assert_eq!(None, parse_link(&chars("ab cd")));
    assert_eq!(None, parse_link(&chars("\u{e4}b-cd")));
    assert_eq!(None, parse_link(&chars("")));
    assert!(parse_network("ab-cd\n\ncd-ef").is_none());
    assert_eq!(2, parse_network("  ab-cd\r\ncd-ef\n\n").unwrap().len());
    assert_eq!(3, build(&parse_network("ab-cd\ncd-ef").unwrap()).nodes.len());
    assert_eq!(('t', 'c'), to_char_tupel("tc"));
}

#[test]
fn part2_example() {
    let input = "kh-tc
qp-kh
de-cg
ka-co
yn-aq
qp-ub
cg-tb
vc-aq
tb-ka
wh-tc
yn-cg
kh-ub
ta-co
de-co
tc-td
tb-wq
wh-td
ta-ka
td-qp
aq-cg
wq-ub
ub-vc
de-ta
wq-aq
wq-vc
wh-yn
ka-de
kh-ta
co-tc
wh-qp
tb-vc
td-yn"
        .trim();

    assert_eq!("co,de,ka,ta", solve_day_23_part_02(input));
}

#[test]
fn largest_group_of_a_network() {
    assert_eq!("", solve_day_23_part_02(""));
    assert_eq!("ab,cd", solve_day_23_part_02("cd-ab"));
    assert_eq!("aa,bb,cc", solve_day_23_part_02("zz-aa\ncc-bb\nbb-aa\naa-cc\nzz-yy"));
    assert_eq!("aa,bb,cc,dd", solve_day_23_part_02("aa-bb\naa-cc\naa-dd\nbb-cc\nbb-dd\ncc-dd\ndd-ee\nee-aa"));
    let graph = build(&parse_network("zz-aa\ncc-bb\nbb-aa\naa-cc\nzz-yy").unwrap());
    let best = largest_clique(&graph);
    assert_eq!(vec![1, 2, 3], best);
    assert_eq!("aa,bb,cc", password_of(&graph, &best));
    assert_eq!("aa,zz", password_of(&graph, &vec![0, 1]));
}

#[test]
fn neighbours_without_one_make_a_group() {
    let four = "aa-bb\naa-cc\naa-dd\nbb-cc\nbb-dd\ncc-dd\ndd-ee\nee-aa";
    assert_eq!(Some("aa,bb,cc,dd".to_string()), solve_day_23_part_02_with_hacky_shit_solution(four));
    assert_eq!(Some("cd".to_string()), solve_day_23_part_02_with_hacky_shit_solution("cd-ab"));
    assert_eq!(None, solve_day_23_part_02_with_hacky_shit_solution(""));
    assert_eq!(
        Some("bb,ee".to_string()),
        solve_day_23_part_02_with_hacky_shit_solution("aa-bb\naa-cc\naa-dd\nbb-ee\ncc-ee\ndd-ee")
    );
}
