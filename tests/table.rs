use turing_machine::table::{LineOutcome, TransitionTable};

#[test]
fn later_rule_for_a_key_wins_with_one_warning() {
    let mut table = TransitionTable::new();
    let first = table.add_line("(q0, a) -> (q1, b, >)");
    assert!(matches!(first, LineOutcome::Added));
    let second = table.add_line("(q0, a) -> (q2, c, <)");
    match second {
        LineOutcome::Remapped(discarded, kept) => {
            assert_eq!(discarded.to, "q1");
            assert_eq!(discarded.write, 'b');
            assert_eq!(kept.to, "q2");
            assert_eq!(kept.write, 'c');
        }
        other => panic!("expected a remap, got {:?}", other),
    }
    assert_eq!(table.len(), 1);
    let a = table.lookup(&"q0".to_string(), 'a').expect("rule present");
    assert_eq!(a.to, "q2");
    assert_eq!(a.write, 'c');
}

#[test]
fn three_left_fields_leave_the_table_unchanged() {
    let mut table = TransitionTable::new();
    table.add_line("(q0, a) -> (q1, b, >)");
    let outcome = table.add_line("(q0, a, b) -> (q1, b, >)");
    assert!(matches!(outcome, LineOutcome::Unparseable));
    assert_eq!(table.len(), 1);
}

#[test]
fn blank_lines_are_silent() {
    let mut table = TransitionTable::new();
    assert!(matches!(table.add_line("   "), LineOutcome::Blank));
    assert!(matches!(table.add_line(""), LineOutcome::Blank));
    assert!(matches!(table.add_line("garbage"), LineOutcome::Unparseable));
    assert_eq!(table.len(), 0);
}

#[test]
fn distinct_keys_are_all_kept() {
    let mut table = TransitionTable::new();
    table.add_line("(q0, a) -> (q1, b, >)");
    table.add_line("(q0, b) -> (q1, b, >)");
    table.add_line("(q1, a) -> (q0, a, <)");
    assert_eq!(table.len(), 3);
    assert!(table.lookup(&"q1".to_string(), 'b').is_none());
    assert!(table.lookup(&"q2".to_string(), 'a').is_none());
    let mut texts: Vec<String> = (0..table.len()).map(|i| table.get(i).to_text()).collect();
    texts.sort();
    assert_eq!(
        texts,
        vec![
            "(q0 , a) -> (q1 , b , >)".to_string(),
            "(q0 , b) -> (q1 , b , >)".to_string(),
            "(q1 , a) -> (q0 , a , <)".to_string(),
        ]
    );
}
