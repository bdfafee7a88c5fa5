use hyper_pattern_matching::automata::NFAH;
use hyper_pattern_matching::hyper_pattern_matching::{
    PatternMatchingAutomataConfiguration, PatternMatchingAutomataRunner,
};
use hyper_pattern_matching::sequence::{AppendOnlySequence, ReadableView};

fn small_automaton() -> (NFAH, [usize; 5]) {
    let mut automata = NFAH::new(2);
    let s1 = automata.add_state(true, false);
    let s12 = automata.add_state(false, false);
    let s2 = automata.add_state(false, false);
    let s13 = automata.add_state(false, false);
    let s3 = automata.add_state(false, true);
    automata.add_nfah_transition(s1, "a".to_string(), 0, s12);
    automata.add_nfah_transition(s12, "b".to_string(), 1, s2);
    automata.add_nfah_transition(s1, "a".to_string(), 0, s1);
    automata.add_nfah_transition(s1, "b".to_string(), 1, s1);
    automata.add_nfah_transition(s1, "c".to_string(), 0, s13);
    automata.add_nfah_transition(s13, "d".to_string(), 1, s3);
    (automata, [s1, s12, s2, s13, s3])
}

fn small_sequences() -> Vec<AppendOnlySequence<String>> {
    let mut sequences = vec![AppendOnlySequence::new(), AppendOnlySequence::new()];
    sequences[0].append("a".to_string());
    sequences[1].append("b".to_string());
    sequences[0].append("c".to_string());
    sequences[1].append("d".to_string());
    sequences
}

fn views(sequences: &[AppendOnlySequence<String>]) -> Vec<ReadableView> {
    sequences.iter().map(|s| s.readable_view()).collect()
}

fn contains(
    configurations: &[PatternMatchingAutomataConfiguration],
    expected: &PatternMatchingAutomataConfiguration,
) -> bool {
    configurations.iter().any(|c| c.same_configuration(expected))
}

fn advanced(
    sequences: &Vec<AppendOnlySequence<String>>,
    state: usize,
    first: usize,
    second: usize,
) -> PatternMatchingAutomataConfiguration {
    let mut configuration = PatternMatchingAutomataConfiguration::new(state, views(sequences), vec![0, 1]);
    configuration.input_advance(sequences, 0, first);
    configuration.input_advance(sequences, 1, second);
    configuration
}

#[test]
fn hyper_pattern_matching_test_automata_configuration_successors() {
    let (automata, [s1, s12, _s2, _s13, _s3]) = small_automaton();
    let sequences = small_sequences();
    let config = PatternMatchingAutomataConfiguration::new(s1, views(&sequences), vec![0, 1]);

    let successors = config.successors(&automata, &sequences);
    assert_eq!(successors.len(), 3);
    assert!(contains(&successors, &advanced(&sequences, s12, 1, 0)));
    assert!(contains(&successors, &advanced(&sequences, s1, 1, 0)));
    assert!(contains(&successors, &advanced(&sequences, s1, 0, 1)));
}

#[test]
fn hyper_pattern_matching_test_automata_runner() {
    let (automata, [s1, s12, s2, s13, s3]) = small_automaton();
    let sequences = small_sequences();

    let mut runner = PatternMatchingAutomataRunner::new(&automata);
    runner.insert_from_initial_states(views(&sequences), vec![0, 1]);
    runner.consume(&sequences);

    let successors = &runner.current_configurations;
    assert_eq!(successors.len(), 10);

    assert!(contains(
        successors,
        &PatternMatchingAutomataConfiguration::new(s1, views(&sequences), vec![0, 1])
    ));
    assert!(contains(successors, &advanced(&sequences, s1, 1, 0)));
    assert!(contains(successors, &advanced(&sequences, s1, 0, 1)));
    assert!(contains(successors, &advanced(&sequences, s1, 1, 1)));
    assert!(contains(successors, &advanced(&sequences, s12, 1, 0)));
    assert!(contains(successors, &advanced(&sequences, s12, 1, 1)));
    assert!(contains(successors, &advanced(&sequences, s2, 1, 1)));
    assert!(contains(successors, &advanced(&sequences, s13, 2, 0)));
    assert!(contains(successors, &advanced(&sequences, s13, 2, 1)));
    assert!(contains(successors, &advanced(&sequences, s3, 2, 2)));
}

#[test]
fn finals_waiting_and_removal() {
    let (automata, [s1, _s12, _s2, _s13, s3]) = small_automaton();
    let mut sequences = small_sequences();
    let mut runner = PatternMatchingAutomataRunner::new(&automata);
    runner.insert_from_initial_states(views(&sequences), vec![0, 1]);
    runner.consume(&sequences);
    let finals = runner.get_final_configurations();
    assert_eq!(finals.len(), 1);
    assert_eq!(finals[0].current_state, s3);
    assert_eq!(finals[0].matching_begin, vec![0, 0]);
    assert!(runner.has_ids(&vec![0, 1]));
    assert!(!runner.has_ids(&vec![1, 1]));

    // Nothing is closed: a configuration waits when some view is at the end of its stream.
    runner.remove_non_waiting_configurations(&sequences);
    assert!(runner.current_configurations.iter().all(|c| c.is_waiting(&sequences)));
    assert!(contains(&runner.current_configurations, &advanced(&sequences, s3, 2, 2)));
    assert!(!contains(&runner.current_configurations, &advanced(&sequences, s1, 1, 1)));

    // Once both streams are closed, no configuration waits.
    sequences[0].close();
    sequences[1].close();
    runner.remove_non_waiting_configurations(&sequences);
    assert_eq!(runner.len(), 0);
}

#[test]
fn head_and_advance_clamp() {
    let sequences = small_sequences();
    let mut config = PatternMatchingAutomataConfiguration::new(0, views(&sequences), vec![0, 1]);
    assert_eq!(config.input_head(&sequences, 0), Some("a".to_string()));
    assert_eq!(config.input_head(&sequences, 1), Some("b".to_string()));
    assert_eq!(config.input_head(&sequences, 2), None);
    config.input_advance(&sequences, 0, 5);
    assert_eq!(config.input_sequence[0].start, 2);
    assert_eq!(config.input_head(&sequences, 0), None);
    assert_eq!(config.dimensions(), 2);
    let copy = config.duplicate(3);
    assert_eq!(copy.current_state, 3);
    assert_eq!(copy.input_sequence, config.input_sequence);
}
