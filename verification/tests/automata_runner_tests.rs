use hyper_pattern_matching::automata::NFAH;
use hyper_pattern_matching::automata_runner::{SimpleAutomataConfiguration, SimpleAutomataRunner};
use hyper_pattern_matching::sequence::{AppendOnlySequence, ReadableView};

fn small_automaton() -> (NFAH, [usize; 5]) {
    let mut automaton = NFAH::new(2);
    let s1 = automaton.add_state(true, false);
    let s12 = automaton.add_state(false, false);
    let s2 = automaton.add_state(false, false);
    let s13 = automaton.add_state(false, false);
    let s3 = automaton.add_state(false, true);
    automaton.add_nfah_transition(s1, "a".to_string(), 0, s12);
    automaton.add_nfah_transition(s12, "b".to_string(), 1, s2);
    automaton.add_nfah_transition(s1, "a".to_string(), 0, s1);
    automaton.add_nfah_transition(s1, "b".to_string(), 1, s1);
    automaton.add_nfah_transition(s1, "c".to_string(), 0, s13);
    automaton.add_nfah_transition(s13, "d".to_string(), 1, s3);
    (automaton, [s1, s12, s2, s13, s3])
}

fn small_sequences() -> Vec<AppendOnlySequence<String>> {
    let mut sequences = vec![AppendOnlySequence::new(), AppendOnlySequence::new()];
    sequences[0].append("a".to_string());
    sequences[1].append("b".to_string());
    sequences[0].append("c".to_string());
    sequences[1].append("d".to_string());
    sequences
}

/// Views on `sequences`, the `i`-th moved forward by `advance[i]`.
fn views(sequences: &[AppendOnlySequence<String>], advance: [usize; 2]) -> Vec<ReadableView> {
    let mut view: Vec<ReadableView> = sequences.iter().map(|s| s.readable_view()).collect();
    view[0].advance_readable(&sequences[0], advance[0]);
    view[1].advance_readable(&sequences[1], advance[1]);
    view
}

#[test]
fn automata_runner_test_automata_configuration_successors() {
    let (automaton, [s1, s12, _s2, _s13, _s3]) = small_automaton();
    let sequences = small_sequences();

    let config = SimpleAutomataConfiguration::new(s1, views(&sequences, [0, 0]));
    let successors = config.successors(&automaton, &sequences);

    assert_eq!(successors.len(), 3);
    // Moves to s12 using (a, 0)
    assert!(successors.contains(&SimpleAutomataConfiguration::new(s12, views(&sequences, [1, 0]))));
    // Moves to s1 using (a, 0)
    assert!(successors.contains(&SimpleAutomataConfiguration::new(s1, views(&sequences, [1, 0]))));
    // Moves to s1 using (b, 1)
    assert!(successors.contains(&SimpleAutomataConfiguration::new(s1, views(&sequences, [0, 1]))));
}

#[test]
fn automata_runner_test_automata_runner() {
    let (automaton, [s1, s12, s2, s13, s3]) = small_automaton();
    let sequences = small_sequences();

    let mut runner = SimpleAutomataRunner::new(&automaton, views(&sequences, [0, 0]));
    runner.consume(&sequences);

    let successors = runner.current_configurations;
    assert_eq!(successors.len(), 10);

    // No transition
    assert!(successors.contains(&SimpleAutomataConfiguration::new(s1, views(&sequences, [0, 0]))));
    // Self loops
    assert!(successors.contains(&SimpleAutomataConfiguration::new(s1, views(&sequences, [1, 0]))));
    assert!(successors.contains(&SimpleAutomataConfiguration::new(s1, views(&sequences, [0, 1]))));
    assert!(successors.contains(&SimpleAutomataConfiguration::new(s1, views(&sequences, [1, 1]))));
    // Moves to s12
    assert!(successors.contains(&SimpleAutomataConfiguration::new(s12, views(&sequences, [1, 0]))));
    // Moves to s12 after consuming the first element of the second dimension with a self-loop
    assert!(successors.contains(&SimpleAutomataConfiguration::new(s12, views(&sequences, [1, 1]))));
    // Moves to s2 via s12
    assert!(successors.contains(&SimpleAutomataConfiguration::new(s2, views(&sequences, [1, 1]))));
    // Moves to s13 after consuming the first element of the first dimension with the self loops
    assert!(successors.contains(&SimpleAutomataConfiguration::new(s13, views(&sequences, [2, 0]))));
    // Moves to s13 after consuming the first elements with the self loops
    assert!(successors.contains(&SimpleAutomataConfiguration::new(s13, views(&sequences, [2, 1]))));
    // Moves to s3 via s13 after consuming the first elements with the self loops
    assert!(successors.contains(&SimpleAutomataConfiguration::new(s3, views(&sequences, [2, 2]))));
}

#[test]
fn runner_insert_keeps_each_configuration_once() {
    let (automaton, [s1, s12, ..]) = small_automaton();
    let sequences = small_sequences();
    let mut runner = SimpleAutomataRunner::new(&automaton, views(&sequences, [0, 0]));
    assert_eq!(runner.len(), 1);
    runner.insert(SimpleAutomataConfiguration::new(s1, views(&sequences, [0, 0])));
    assert_eq!(runner.len(), 1);
    runner.insert(SimpleAutomataConfiguration::new(s12, views(&sequences, [1, 0])));
    assert_eq!(runner.len(), 2);
    runner.insert_from_initial_states(views(&sequences, [0, 0]));
    assert_eq!(runner.len(), 2);
}

#[test]
fn configuration_reads_and_advances_its_views() {
    let (_automaton, [s1, ..]) = small_automaton();
    let sequences = small_sequences();
    let mut config = SimpleAutomataConfiguration::new(s1, views(&sequences, [0, 0]));
    assert_eq!(config.dimensions(), 2);
    assert_eq!(config.input_head(&sequences, 0), Some("a".to_string()));
    assert_eq!(config.input_head(&sequences, 1), Some("b".to_string()));
    assert_eq!(config.input_head(&sequences, 2), None);
    config.input_advance(&sequences, 0, 5);
    assert_eq!(config.input_head(&sequences, 0), None);
    assert_eq!(config.input_sequence[0].start, 2);
    let copy = config.duplicate(s1);
    assert!(copy.same_configuration(&config));
}
