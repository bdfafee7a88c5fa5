use hyper_pattern_matching::automata::NFAH;
use hyper_pattern_matching::filtered_hyper_pattern_matching::FilteredHyperPatternMatching;
use hyper_pattern_matching::multi_stream_reader::MultiStreamReader;
use hyper_pattern_matching::reading_scheduler::ReadingScheduler;
use hyper_pattern_matching::result_notifier::{MatchingInterval, MatchingResult, SharedBufferResultNotifier};
use hyper_pattern_matching::shared_buffer::{SharedBuffer, SharedBufferSink};

/// The automaton with two variables used by most tests.
fn create_small_automaton() -> NFAH {
    let mut automaton = NFAH::new(2);
    let s0 = automaton.add_state(true, false);
    let s1 = automaton.add_state(false, false);
    let s2 = automaton.add_state(false, false);
    let s3 = automaton.add_state(false, false);
    let s4 = automaton.add_state(false, true);
    automaton.add_nfah_transition(s0, "a".to_string(), 0, s1);
    automaton.add_nfah_transition(s1, "b".to_string(), 1, s2);
    automaton.add_nfah_transition(s0, "a".to_string(), 0, s0);
    automaton.add_nfah_transition(s0, "b".to_string(), 1, s0);
    automaton.add_nfah_transition(s0, "c".to_string(), 0, s3);
    automaton.add_nfah_transition(s3, "d".to_string(), 1, s4);
    automaton
}

fn create_matching(
    automaton: &NFAH,
) -> (FilteredHyperPatternMatching<'_, SharedBufferResultNotifier>, SharedBufferSink<MatchingResult>) {
    let result_buffer = SharedBuffer::new();
    let notifier = SharedBufferResultNotifier::new(result_buffer.make_source());
    let result_sink = result_buffer.make_sink();
    let matching = FilteredHyperPatternMatching::new(automaton, notifier);
    (matching, result_sink)
}

fn collect(sink: &mut SharedBufferSink<MatchingResult>) -> Vec<MatchingResult> {
    let mut results = Vec::new();
    while let Some(result) = sink.pop() {
        results.push(result);
    }
    results
}

fn verify_intervals(results: &[MatchingResult], expected_intervals: &[Vec<usize>]) {
    assert_eq!(results.len(), expected_intervals.len(), "Number of results doesn't match expected");
    for (i, result) in results.iter().enumerate() {
        assert_eq!(result.intervals.len(), 2, "Result should have 2 intervals");
        assert_eq!(
            result.intervals[0],
            MatchingInterval::new(expected_intervals[i][0], expected_intervals[i][1]),
            "First interval mismatch at result {}",
            i
        );
        assert_eq!(
            result.intervals[1],
            MatchingInterval::new(expected_intervals[i][2], expected_intervals[i][3]),
            "Second interval mismatch at result {}",
            i
        );
    }
}

fn verify_ids(results: &[MatchingResult], expected_ids: &[Vec<usize>]) {
    assert_eq!(results.len(), expected_ids.len(), "Number of results doesn't match expected");
    for (i, result) in results.iter().enumerate() {
        assert_eq!(result.ids.len(), 2, "Result should have 2 IDs");
        assert_eq!(result.ids[0], expected_ids[i][0], "First ID mismatch at result {}", i);
        assert_eq!(result.ids[1], expected_ids[i][1], "Second ID mismatch at result {}", i);
    }
}

#[test]
fn filtered_hyper_pattern_matching_tests_test_run() {
    let mut automaton = NFAH::new(2);
    let s1 = automaton.add_state(true, false);
    let s12 = automaton.add_state(false, false);
    let s2 = automaton.add_state(false, false);
    let s13 = automaton.add_state(false, false);
    let s3 = automaton.add_state(false, true);
    automaton.add_nfah_transition(s1, "a".to_string(), 0, s12);
    automaton.add_nfah_transition(s12, "b".to_string(), 1, s2);
    automaton.add_nfah_transition(s1, "a".to_string(), 0, s1);
    automaton.add_nfah_transition(s1, "b".to_string(), 1, s1);
    automaton.add_nfah_transition(s1, "c".to_string(), 0, s13);
    automaton.add_nfah_transition(s13, "d".to_string(), 1, s3);

    let input_buffers = vec![SharedBuffer::new(), SharedBuffer::new()];
    let reader = MultiStreamReader::new(input_buffers.clone());

    let (matching, mut result_sink) = create_matching(&automaton);
    let mut scheduler = ReadingScheduler::new(matching, reader);

    input_buffers[0].push("a");
    input_buffers[1].push("b");
    input_buffers[0].push("a");
    input_buffers[1].push("b");
    input_buffers[0].push("c");
    input_buffers[1].push("d");

    while !scheduler.run_round() {}

    let expected_intervals = [
        vec![0, 2, 0, 2],
        vec![0, 2, 1, 2],
        vec![0, 2, 2, 2],
        vec![1, 2, 0, 2],
        vec![1, 2, 1, 2],
        vec![1, 2, 2, 2],
        vec![2, 2, 0, 2],
        vec![2, 2, 1, 2],
        vec![2, 2, 2, 2],
    ];
    let results = collect(&mut result_sink);
    verify_intervals(&results, &expected_intervals);
}

#[test]
fn filtered_hyper_pattern_matching_tests_test_small() {
    let automaton = create_small_automaton();
    let (mut matching, mut result_sink) = create_matching(&automaton);

    matching.feed("a", 0);
    matching.consume();
    matching.feed("a", 1);
    matching.consume();
    matching.feed("a", 0);
    matching.consume();
    matching.feed("d", 1);
    matching.consume();
    matching.feed("c", 0);
    matching.consume();
    matching.set_eof(0);
    matching.feed("d", 1);
    matching.set_eof(1);
    matching.consume();
    matching.consume_remaining();

    let expected_intervals = [
        vec![0, 2, 1, 1],
        vec![0, 2, 1, 1],
        vec![0, 2, 2, 2],
        vec![1, 2, 1, 1],
        vec![1, 2, 2, 2],
        vec![2, 2, 1, 1],
        vec![2, 2, 2, 2],
    ];
    let results = collect(&mut result_sink);
    verify_intervals(&results, &expected_intervals);
}

#[test]
fn filtered_hyper_pattern_matching_tests_test_small_double() {
    let automaton = create_small_automaton();
    let (mut matching, mut result_sink) = create_matching(&automaton);

    matching.feed("a", 0);
    matching.consume();
    matching.feed("a", 1);
    matching.consume();
    matching.feed("a", 0);
    matching.consume();
    matching.feed("d", 1);
    matching.consume();
    matching.feed("c", 0);
    matching.consume();
    matching.feed("d", 1);
    matching.set_eof(1);
    matching.consume();

    matching.feed("a", 0);
    matching.consume();
    matching.feed("a", 0);
    matching.consume();
    matching.feed("c", 0);
    matching.set_eof(0);
    matching.consume_remaining();

    let expected_intervals = vec![
        vec![0, 2, 1, 1],
        vec![0, 2, 1, 1],
        vec![0, 2, 1, 1],
        vec![0, 2, 1, 1],
        vec![0, 2, 1, 1],
        vec![0, 2, 1, 1],
        vec![0, 2, 2, 2],
        vec![1, 2, 1, 1],
        vec![1, 2, 2, 2],
        vec![2, 2, 1, 1],
        vec![2, 2, 2, 2],
        vec![3, 5, 1, 1],
        vec![3, 5, 2, 2],
        vec![4, 5, 1, 1],
        vec![4, 5, 2, 2],
        vec![5, 5, 1, 1],
        vec![5, 5, 2, 2],
    ];
    let results = collect(&mut result_sink);
    verify_intervals(&results, &expected_intervals);
}

#[test]
fn test_complex_pattern() {
    let mut automaton = NFAH::new(2);
    let s0 = automaton.add_state(true, false);
    let s1 = automaton.add_state(false, false);
    let s2 = automaton.add_state(false, false);
    let s3 = automaton.add_state(false, false);
    let s4 = automaton.add_state(false, false);
    let s5 = automaton.add_state(false, true);
    automaton.add_nfah_transition(s0, "a".to_string(), 0, s1);
    automaton.add_nfah_transition(s1, "a".to_string(), 0, s1);
    automaton.add_nfah_transition(s1, "b".to_string(), 0, s2);
    automaton.add_nfah_transition(s2, "b".to_string(), 0, s2);
    automaton.add_nfah_transition(s2, "c".to_string(), 0, s3);
    automaton.add_nfah_transition(s1, "c".to_string(), 0, s3);
    automaton.add_nfah_transition(s3, "d".to_string(), 1, s4);
    automaton.add_nfah_transition(s4, "d".to_string(), 1, s4);
    automaton.add_nfah_transition(s4, "e".to_string(), 1, s4);
    automaton.add_nfah_transition(s4, "f".to_string(), 1, s5);

    let (mut matching, mut result_sink) = create_matching(&automaton);

    matching.feed("a", 0);
    matching.consume();
    matching.feed("a", 0);
    matching.consume();
    matching.feed("b", 0);
    matching.consume();
    matching.feed("c", 0);
    matching.consume();
    matching.feed("d", 1);
    matching.consume();
    matching.feed("d", 1);
    matching.consume();
    matching.feed("e", 1);
    matching.consume();
    matching.feed("f", 1);
    matching.consume();
    matching.set_eof(0);
    matching.set_eof(1);
    matching.consume_remaining();

    let results = collect(&mut result_sink);
    assert!(!results.is_empty(), "Should have found some matches");
    for result in results {
        assert_eq!(result.intervals.len(), 2, "Each result should have 2 intervals");
        assert_eq!(result.ids.len(), 2, "Each result should have 2 IDs");
    }
}

#[test]
fn filtered_hyper_pattern_matching_tests_test_small_with_abcd_10() {
    let automaton = create_small_automaton();
    let (mut matching, mut result_sink) = create_matching(&automaton);

    let inputs = vec!["d", "b", "d", "d", "d", "a", "b", "d", "b", "c"];
    for input in inputs.iter() {
        matching.feed(input, 0);
        matching.consume();
    }
    matching.set_eof(0);
    matching.set_eof(1);

    let results = collect(&mut result_sink);
    let expected_intervals = [
        vec![9, 9, 0, 0],
        vec![9, 9, 1, 2],
        vec![9, 9, 2, 2],
        vec![9, 9, 3, 3],
        vec![9, 9, 4, 4],
        vec![9, 9, 6, 7],
        vec![9, 9, 7, 7],
    ];
    let expected_ids = vec![vec![0, 0], vec![0, 0], vec![0, 0], vec![0, 0], vec![0, 0], vec![0, 0], vec![0, 0]];
    verify_intervals(&results, &expected_intervals);
    verify_ids(&results, &expected_ids);
}
