use turing_machine::rule::{parse_transition, Direction, Transition};

fn parse(line: &str) -> Transition {
    parse_transition(line).expect("line should parse")
}

#[test]
fn parses_a_plain_rule() {
    let t = parse("(q0, a) -> (q1, b, >)");
    assert_eq!(t.from, "q0");
    assert_eq!(t.read, 'a');
    assert_eq!(t.to, "q1");
    assert_eq!(t.write, 'b');
    assert_eq!(t.dir, Direction::Right);
}

#[test]
fn whitespace_around_tokens_is_insignificant() {
    let t = parse("   (  q0 ,a  )->(   q1 ,  b ,< )  ");
    assert_eq!(t.from, "q0");
    assert_eq!(t.read, 'a');
    assert_eq!(t.to, "q1");
    assert_eq!(t.write, 'b');
    assert_eq!(t.dir, Direction::Left);
}

#[test]
fn unicode_whitespace_is_trimmed() {
    let t = parse("\u{3000}(q0,\u{a0}a) -> (q1, b, >)\t");
    assert_eq!(t.from, "q0");
    assert_eq!(t.read, 'a');
}

#[test]
fn long_symbol_fields_give_their_first_character() {
    let t = parse("(q0, ab) -> (q1, cd, >>)");
    assert_eq!(t.read, 'a');
    assert_eq!(t.write, 'c');
    assert_eq!(t.dir, Direction::Right);
}

#[test]
fn blank_symbol_is_an_ordinary_symbol() {
    let t = parse("(q0, _) -> (q1, _, >)");
    assert_eq!(t.read, '_');
    assert_eq!(t.write, '_');
}

#[test]
fn unknown_direction_is_rejected() {
    assert!(parse_transition("(q0, a) -> (q1, b, x)").is_none());
    assert!(parse_transition("(q0, a) -> (q1, b, ^)").is_none());
}

#[test]
fn arrow_count_must_be_one() {
    assert!(parse_transition("(q0, a) (q1, b, >)").is_none());
    assert!(parse_transition("(q0, a) -> (q1, b, >) -> (q2, c, <)").is_none());
}

#[test]
fn three_fields_on_the_left_are_rejected() {
    assert!(parse_transition("(q0, a, b) -> (q1, b, >)").is_none());
}

#[test]
fn right_side_needs_three_fields() {
    assert!(parse_transition("(q0, a) -> (q1, b)").is_none());
    assert!(parse_transition("(q0, a) -> (q1, b, >, x)").is_none());
}

#[test]
fn empty_symbol_fields_are_rejected() {
    assert!(parse_transition("(q0, ) -> (q1, b, >)").is_none());
    assert!(parse_transition("(q0, a) -> (q1,  , >)").is_none());
    assert!(parse_transition("(q0, a) -> (q1, b, )").is_none());
}

#[test]
fn blank_line_is_no_rule() {
    assert!(parse_transition("").is_none());
    assert!(parse_transition("   \t ").is_none());
}

#[test]
fn stray_parentheses_are_stripped() {
    let t = parse("((q0, a)) -> ((q1, b, <))");
    assert_eq!(t.from, "q0");
    assert_eq!(t.read, 'a');
    assert_eq!(t.to, "q1");
    assert_eq!(t.dir, Direction::Left);
}

#[test]
fn canonical_text_is_exact() {
    let t = parse("(q0,a)->(q1,b,<)");
    assert_eq!(t.to_text(), "(q0 , a) -> (q1 , b , <)");
}

#[test]
fn canonical_text_parses_back_to_the_same_rule() {
    for line in [
        "(q0, a) -> (q1, b, >)",
        "  ( state one , x ) -> ( state two , y , < )",
        "(q0, ab) -> (q1, cd, >>)",
        "(, -) -> (q-, >, >)",
    ] {
        let t = parse(line);
        let back = parse(&t.to_text());
        assert_eq!(back.from, t.from);
        assert_eq!(back.read, t.read);
        assert_eq!(back.to, t.to);
        assert_eq!(back.write, t.write);
        assert_eq!(back.dir, t.dir);
    }
}

#[test]
fn direction_characters() {
    assert_eq!(Direction::from_char('<'), Some(Direction::Left));
    assert_eq!(Direction::from_char('>'), Some(Direction::Right));
    assert_eq!(Direction::from_char('-'), None);
    assert_eq!(Direction::Left.symbol(), '<');
    assert_eq!(Direction::Right.symbol(), '>');
}

#[test]
fn state_starting_with_a_parenthesis_loses_it_in_text_form() {
    let t = parse("( (q, a) -> (q1, b, >)");
    assert_eq!(t.from, "(q");
    let back = parse(&t.to_text());
    assert_eq!(back.from, "q");
}
