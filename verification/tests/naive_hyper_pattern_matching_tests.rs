use hyper_pattern_matching::automata::NFAH;
use hyper_pattern_matching::multi_stream_reader::MultiStreamReader;
use hyper_pattern_matching::naive_hyper_pattern_matching::NaiveHyperPatternMatching;
use hyper_pattern_matching::reading_scheduler::ReadingScheduler;
use hyper_pattern_matching::result_notifier::{MatchingInterval, SharedBufferResultNotifier};
use hyper_pattern_matching::sequence::AppendOnlySequence;
use hyper_pattern_matching::shared_buffer::SharedBuffer;

fn small_automaton() -> NFAH {
    let mut automaton = NFAH::new(2);
    let s1 = automaton.add_state(true, false);
    let s12 = automaton.add_state(false, false);
    let s2 = automaton.add_state(false, false);
    let s13 = automaton.add_state(false, false);
    let s3 = automaton.add_state(false, true);
    automaton.add_nfah_transition(s1, "a".to_string(), 0, s12);
    automaton.add_nfah_transition(s12, "b".to_string(), 1, s2);
    automaton.add_nfah_transition(s1, "a".to_string(), 0, s1);
    automaton.add_nfah_transition(s1, "b".to_string(), 1, s1);
    automaton.add_nfah_transition(s1, "c".to_string(), 0, s13);
    automaton.add_nfah_transition(s13, "d".to_string(), 1, s3);
    automaton
}

#[test]
fn naive_hyper_pattern_matching_test_run() {
    let automaton = small_automaton();

    let input_buffers = vec![SharedBuffer::new(), SharedBuffer::new()];
    let reader = MultiStreamReader::new(input_buffers.clone());

    let result_buffer = SharedBuffer::new();
    let notifier = SharedBufferResultNotifier::new(result_buffer.make_source());
    let mut result_sink = result_buffer.make_sink();

    let matching = NaiveHyperPatternMatching::new(
        &automaton,
        notifier,
        vec![AppendOnlySequence::new(), AppendOnlySequence::new()],
    );

    let mut scheduler = ReadingScheduler::new(matching, reader);

    input_buffers[0].push("a");
    input_buffers[1].push("b");
    input_buffers[0].push("a");
    input_buffers[1].push("b");
    input_buffers[0].push("c");
    input_buffers[1].push("d");

    while !scheduler.run_round() {}

    let expected = [
        ((0, 2), (0, 2)),
        ((0, 2), (0, 2)),
        ((0, 2), (1, 2)),
        ((0, 2), (2, 2)),
        ((1, 2), (0, 2)),
        ((1, 2), (1, 2)),
        ((1, 2), (2, 2)),
        ((2, 2), (0, 2)),
        ((2, 2), (1, 2)),
        ((2, 2), (2, 2)),
    ];
    for ((a, b), (c, d)) in expected {
        let result = result_sink.pop().expect("No data in shared buffer");
        assert_eq!(result.intervals.len(), 2);
        assert_eq!(result.ids.len(), 2);
        assert_eq!(result.intervals[0], MatchingInterval::new(a, b));
        assert_eq!(result.intervals[1], MatchingInterval::new(c, d));
        assert_eq!(result.ids, vec![0, 1]);
    }
    assert!(result_sink.pop().is_none());
}

#[test]
fn feed_reports_only_when_a_match_completes() {
    let automaton = small_automaton();
    let result_buffer = SharedBuffer::new();
    let notifier = SharedBufferResultNotifier::new(result_buffer.make_source());
    let mut sink = result_buffer.make_sink();
    let mut matching = NaiveHyperPatternMatching::new(
        &automaton,
        notifier,
        vec![AppendOnlySequence::new(), AppendOnlySequence::new()],
    );
    matching.feed("c", 0);
    assert!(sink.pop().is_none());
    matching.feed("d", 1);
    let result = sink.pop().expect("a matching");
    assert_eq!(result.intervals, vec![MatchingInterval::new(0, 0), MatchingInterval::new(0, 0)]);
    assert_eq!(result.ids, vec![0, 1]);
    assert!(sink.pop().is_none());
}

#[test]
fn in_range_respects_ended_streams() {
    let automaton = small_automaton();
    let result_buffer = SharedBuffer::new();
    let notifier = SharedBufferResultNotifier::new(result_buffer.make_source());
    let mut matching = NaiveHyperPatternMatching::new(
        &automaton,
        notifier,
        vec![AppendOnlySequence::new(), AppendOnlySequence::new()],
    );
    matching.feed("a", 0);
    let p = hyper_pattern_matching::naive_hyper_pattern_matching::StartPosition { start_indices: vec![1, 0] };
    assert!(matching.in_range(&p, &vec![0, 1]));
    matching.set_eof(0);
    assert!(!matching.in_range(&p, &vec![0, 1]));
    let q = hyper_pattern_matching::naive_hyper_pattern_matching::StartPosition { start_indices: vec![0, 5] };
    assert!(matching.in_range(&q, &vec![0, 1]));
}
