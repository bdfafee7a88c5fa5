use hyper_pattern_matching::automata::NFAH;
use hyper_pattern_matching::filtered_single_hyper_pattern_matching::NaiveFilteredSingleHyperPatternMatching;
use hyper_pattern_matching::result_notifier::{MatchingInterval, MatchingResult, SharedBufferResultNotifier};
use hyper_pattern_matching::sequence::{AppendOnlySequence, ReadableView};
use hyper_pattern_matching::shared_buffer::SharedBuffer;
use hyper_pattern_matching::start_position::StartPosition;

fn small_automaton() -> NFAH {
    let mut automaton = NFAH::new(2);
    let s0 = automaton.add_state(true, false);
    let s1 = automaton.add_state(false, false);
    let s2 = automaton.add_state(false, false);
    let s3 = automaton.add_state(false, false);
    let s4 = automaton.add_state(false, true);
    automaton.add_nfah_transition(s0, "a".to_string(), 0, s1);
    automaton.add_nfah_transition(s1, "b".to_string(), 1, s2);
    automaton.add_nfah_transition(s0, "a".to_string(), 0, s0);
    automaton.add_nfah_transition(s0, "b".to_string(), 1, s0);
    automaton.add_nfah_transition(s0, "c".to_string(), 0, s3);
    automaton.add_nfah_transition(s3, "d".to_string(), 1, s4);
    automaton
}

fn some(s: &str) -> Option<String> {
    Some(s.to_string())
}

#[test]
fn filtered_single_hyper_pattern_matching_test_single_hyper_pattern_matching() {
    let mut automaton = small_automaton();
    automaton.remove_unreachable_transitions();

    let mut sequences = [AppendOnlySequence::new(), AppendOnlySequence::new()];
    sequences[0].append(some("a"));
    sequences[1].append(some("b"));
    sequences[0].append(some("c"));
    sequences[1].append(some("d"));
    sequences[0].append(None);
    sequences[1].append(None);
    sequences[0].append(some("c"));
    sequences[1].append(some("d"));
    sequences[0].close();
    sequences[1].close();
    let input_streams = vec![sequences[0].readable_view(), sequences[1].readable_view()];
    let ids = vec![0, 1];

    let result_buffer = SharedBuffer::new();
    let mut matcher = NaiveFilteredSingleHyperPatternMatching::new(
        &automaton,
        SharedBufferResultNotifier::new(result_buffer.make_source()),
        input_streams,
        ids.clone(),
    );
    let mut result_sink = result_buffer.make_sink();
    matcher.consume_input(&vec![&sequences[0], &sequences[1]]);

    let expected_results = vec![
        vec![MatchingInterval::new(0, 1), MatchingInterval::new(0, 1)],
        vec![MatchingInterval::new(0, 1), MatchingInterval::new(1, 1)],
        vec![MatchingInterval::new(0, 1), MatchingInterval::new(3, 3)],
        vec![MatchingInterval::new(1, 1), MatchingInterval::new(0, 1)],
        vec![MatchingInterval::new(1, 1), MatchingInterval::new(1, 1)],
        vec![MatchingInterval::new(1, 1), MatchingInterval::new(3, 3)],
        vec![MatchingInterval::new(3, 3), MatchingInterval::new(0, 1)],
        vec![MatchingInterval::new(3, 3), MatchingInterval::new(1, 1)],
        vec![MatchingInterval::new(3, 3), MatchingInterval::new(3, 3)],
    ];
    for expected_result in expected_results {
        let result = result_sink.pop();
        assert!(result.is_some());
        assert_eq!(ids.clone(), result.clone().unwrap().ids);
        assert_eq!(expected_result, result.unwrap().intervals);
    }
    assert!(result_sink.pop().is_none());
}

#[test]
fn filtered_single_hyper_pattern_matching_test_small_double() {
    let automaton = small_automaton();

    let mut sequences = [AppendOnlySequence::new(), AppendOnlySequence::new()];
    let input_streams = vec![sequences[0].readable_view(), sequences[1].readable_view()];
    let ids = vec![0, 1];

    let result_buffer = SharedBuffer::new();
    let mut matcher = NaiveFilteredSingleHyperPatternMatching::new(
        &automaton,
        SharedBufferResultNotifier::new(result_buffer.make_source()),
        input_streams,
        ids.clone(),
    );
    let mut result_sink = result_buffer.make_sink();

    sequences[0].append(some("a"));
    matcher.consume_input(&vec![&sequences[0], &sequences[1]]);
    sequences[1].append(None);
    matcher.consume_input(&vec![&sequences[0], &sequences[1]]);
    sequences[0].append(some("a"));
    matcher.consume_input(&vec![&sequences[0], &sequences[1]]);
    sequences[1].append(some("d"));
    matcher.consume_input(&vec![&sequences[0], &sequences[1]]);
    sequences[0].append(some("c"));
    matcher.consume_input(&vec![&sequences[0], &sequences[1]]);
    sequences[1].append(some("d"));
    matcher.consume_input(&vec![&sequences[0], &sequences[1]]);
    sequences[1].close();
    matcher.consume_input(&vec![&sequences[0], &sequences[1]]);
    sequences[0].append(some("a"));
    matcher.consume_input(&vec![&sequences[0], &sequences[1]]);
    sequences[0].append(some("a"));
    matcher.consume_input(&vec![&sequences[0], &sequences[1]]);
    sequences[0].append(some("c"));
    matcher.consume_input(&vec![&sequences[0], &sequences[1]]);
    sequences[0].close();
    matcher.consume_input(&vec![&sequences[0], &sequences[1]]);

    let expected_results: Vec<MatchingResult> = [
        (0, 2, 1, 1),
        (0, 2, 2, 2),
        (1, 2, 1, 1),
        (1, 2, 2, 2),
        (2, 2, 1, 1),
        (2, 2, 2, 2),
        (3, 5, 1, 1),
        (3, 5, 2, 2),
        (4, 5, 1, 1),
        (4, 5, 2, 2),
        (5, 5, 1, 1),
        (5, 5, 2, 2),
    ]
    .iter()
    .map(|(s1, e1, s2, e2)| {
        MatchingResult::new(
            vec![MatchingInterval::new(*s1, *e1), MatchingInterval::new(*s2, *e2)],
            vec![0, 1],
        )
    })
    .collect();

    let mut results: Vec<MatchingResult> = Vec::new();
    while let Some(result) = result_sink.pop() {
        if !results.contains(&result) {
            results.push(result);
        }
    }
    assert_eq!(results.len(), expected_results.len());
    for expected_result in expected_results {
        assert!(results.contains(&expected_result));
    }
}

#[test]
fn valid_successors_jump_over_masked_elements() {
    let automaton = small_automaton();
    let mut sequences = [AppendOnlySequence::new(), AppendOnlySequence::new()];
    sequences[0].append(some("a"));
    sequences[0].append(None);
    sequences[0].append(None);
    sequences[0].append(some("c"));
    sequences[1].append(some("b"));
    sequences[0].close();
    sequences[1].close();
    let matcher = NaiveFilteredSingleHyperPatternMatching::new(
        &automaton,
        SharedBufferResultNotifier::new(SharedBuffer::new().make_source()),
        vec![ReadableView::new(), ReadableView::new()],
        vec![0, 1],
    );
    let refs = vec![&sequences[0], &sequences[1]];
    let start = StartPosition { start_indices: vec![0, 0] };
    let found = matcher.compute_valid_successors(&start, &refs);
    let mut found: Vec<Vec<usize>> = found.into_iter().map(|p| p.start_indices).collect();
    found.sort();
    found.dedup();
    // (1, 0) stands on a masked element: the search moves on to (2, 0), also
    // masked, then to (3, 0); (0, 1) is out of range for the closed stream 1.
    assert_eq!(found, vec![vec![3, 0]]);
    assert!(matcher.is_skipped(&StartPosition { start_indices: vec![1, 0] }, &refs));
    assert!(!matcher.in_range(&StartPosition { start_indices: vec![0, 1] }, &refs));
    assert_eq!(matcher.skipped_streams(&StartPosition { start_indices: vec![2, 5] }, &refs), vec![0]);
}
