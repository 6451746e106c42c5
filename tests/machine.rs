use turing_machine::machine::{move_head, parse_accepting, Machine, Verdict, TAPE_CAPACITY};
use turing_machine::rule::Direction;
use turing_machine::table::TransitionTable;

fn table_of(lines: &[&str]) -> TransitionTable {
    let mut table = TransitionTable::new();
    for line in lines {
        table.add_line(line);
    }
    table
}

#[test]
fn example_run_is_accepted() {
    let accepting = parse_accepting("q1");
    let table = table_of(&["(q0, 0) -> (q0, 1, >)", "(q0, _) -> (q1, _, >)"]);
    let mut m = Machine::new("00", TAPE_CAPACITY);
    assert!(m.step(&table));
    assert_eq!((m.state.as_str(), m.head, m.tape[0]), ("q0", 1, '1'));
    assert!(m.step(&table));
    assert_eq!((m.state.as_str(), m.head, m.tape[1]), ("q0", 2, '1'));
    assert!(m.step(&table));
    assert_eq!((m.state.as_str(), m.head, m.tape[2]), ("q1", 3, '_'));
    assert!(!m.step(&table));
    assert_eq!(m.verdict(&accepting), Verdict::Accepted);
}

#[test]
fn bounded_run_reaches_the_same_halt() {
    let table = table_of(&["(q0, 0) -> (q0, 1, >)", "(q0, _) -> (q1, _, >)"]);
    let mut m = Machine::new("00", TAPE_CAPACITY);
    assert!(m.run(&table, 100));
    assert_eq!(m.state, "q1");
    assert_eq!(m.head, 3);
    assert_eq!(&m.tape[..4], &['1', '1', '_', '_']);
    assert_eq!(m.verdict(&parse_accepting("q1")), Verdict::Accepted);
    assert_eq!(m.verdict(&parse_accepting("q0, q2")), Verdict::Error);
}

#[test]
fn bounded_run_stops_after_the_limit() {
    let table = table_of(&["(q0, _) -> (q0, _, >)"]);
    let mut m = Machine::new("", 8);
    assert!(!m.run(&table, 10));
    assert_eq!(m.head, 2);
    assert_eq!(m.state, "q0");
}

#[test]
fn empty_table_halts_at_once() {
    let table = TransitionTable::new();
    let mut m = Machine::new("abc", TAPE_CAPACITY);
    assert!(m.is_halted(&table));
    assert!(m.run(&table, 1000));
    assert_eq!(m.state, "q0");
    assert_eq!(m.head, 0);
    assert_eq!(m.verdict(&parse_accepting("q0")), Verdict::Accepted);
    assert_eq!(m.verdict(&parse_accepting("q1,q2")), Verdict::Error);
}

#[test]
fn head_wraps_at_both_ends() {
    assert_eq!(move_head(0, TAPE_CAPACITY, Direction::Left), TAPE_CAPACITY - 1);
    assert_eq!(move_head(TAPE_CAPACITY - 1, TAPE_CAPACITY, Direction::Right), 0);
    assert_eq!(move_head(5, TAPE_CAPACITY, Direction::Right), 6);
    assert_eq!(move_head(5, TAPE_CAPACITY, Direction::Left), 4);
    assert_eq!(move_head(0, 1, Direction::Left), 0);
}

#[test]
fn machine_wraps_left_from_cell_zero() {
    let table = table_of(&["(q0, a) -> (q1, b, <)"]);
    let mut m = Machine::new("a", 16);
    assert!(m.step(&table));
    assert_eq!(m.head, 15);
    assert_eq!(m.tape[0], 'b');
}

#[test]
fn long_input_is_truncated_to_the_tape() {
    let input = "x".repeat(300);
    let m = Machine::new(&input, TAPE_CAPACITY);
    assert_eq!(m.tape.len(), TAPE_CAPACITY);
    assert!(m.tape.iter().all(|&c| c == 'x'));
    let small = Machine::new("abcdef", 4);
    assert_eq!(small.tape, vec!['a', 'b', 'c', 'd']);
}

#[test]
fn short_input_is_padded_with_blanks() {
    let m = Machine::new("ab", 5);
    assert_eq!(m.tape, vec!['a', 'b', '_', '_', '_']);
    assert_eq!(m.state, "q0");
    assert_eq!(m.head, 0);
}

#[test]
fn accepting_states_are_split_and_trimmed() {
    assert_eq!(parse_accepting(" q1 , q2,q3 "), vec!["q1", "q2", "q3"]);
    assert_eq!(parse_accepting("q1"), vec!["q1"]);
    assert_eq!(parse_accepting(""), vec![""]);
}
