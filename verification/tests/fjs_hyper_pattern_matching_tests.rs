use hyper_pattern_matching::automata::NFAH;
use hyper_pattern_matching::fjs_hyper_pattern_matching::FJSHyperPatternMatching;
use hyper_pattern_matching::multi_stream_reader::MultiStreamReader;
use hyper_pattern_matching::naive_hyper_pattern_matching::StartPosition;
use hyper_pattern_matching::reading_scheduler::ReadingScheduler;
use hyper_pattern_matching::result_notifier::{MatchingInterval, SharedBufferResultNotifier};
use hyper_pattern_matching::sequence::AppendOnlySequence;
use hyper_pattern_matching::shared_buffer::SharedBuffer;

fn run_automaton() -> NFAH {
    let mut automaton = NFAH::new(2);
    let s1 = automaton.add_state(true, false);
    let s12 = automaton.add_state(false, false);
    let s2 = automaton.add_state(false, false);
    let s13 = automaton.add_state(false, false);
    let s3 = automaton.add_state(false, true);
    automaton.add_nfah_transition(s1, "a".to_string(), 0, s12);
    automaton.add_nfah_transition(s12, "b".to_string(), 1, s2);
    automaton.add_nfah_transition(s1, "a".to_string(), 0, s1);
    automaton.add_nfah_transition(s1, "b".to_string(), 1, s1);
    automaton.add_nfah_transition(s1, "c".to_string(), 0, s13);
    automaton.add_nfah_transition(s13, "d".to_string(), 1, s3);
    automaton
}

#[test]
fn fjs_hyper_pattern_matching_test_run() {
    let automaton = run_automaton();

    let input_buffers = vec![SharedBuffer::new(), SharedBuffer::new()];
    let reader = MultiStreamReader::new(input_buffers.clone());

    let result_buffer = SharedBuffer::new();
    let notifier = SharedBufferResultNotifier::new(result_buffer.make_source());
    let mut result_sink = result_buffer.make_sink();

    let matching = FJSHyperPatternMatching::new(
        &automaton,
        notifier,
        vec![AppendOnlySequence::new(), AppendOnlySequence::new()],
    );

    let mut scheduler = ReadingScheduler::new(matching, reader);

    input_buffers[0].push("a");
    input_buffers[1].push("b");
    input_buffers[0].push("a");
    input_buffers[1].push("b");
    input_buffers[0].push("c");
    input_buffers[1].push("d");

    while !scheduler.run_round() {}

    let expected = [
        ((0, 2), (0, 2)),
        ((0, 2), (0, 2)),
        ((0, 2), (1, 2)),
        ((1, 2), (0, 2)),
        ((0, 2), (2, 2)),
        ((1, 2), (1, 2)),
        ((2, 2), (0, 2)),
        ((1, 2), (2, 2)),
        ((2, 2), (1, 2)),
        ((2, 2), (2, 2)),
    ];
    for ((a, b), (c, d)) in expected {
        let result = result_sink.pop().expect("No data in shared buffer");
        assert_eq!(result.intervals.len(), 2);
        assert_eq!(result.ids.len(), 2);
        assert_eq!(result.intervals[0], MatchingInterval::new(a, b));
        assert_eq!(result.intervals[1], MatchingInterval::new(c, d));
        assert_eq!(result.ids, vec![0, 1]);
    }
    assert!(result_sink.pop().is_none());
}

#[test]
fn fjs_in_range_respects_ended_streams() {
    let automaton = run_automaton();
    let result_buffer = SharedBuffer::new();
    let notifier = SharedBufferResultNotifier::new(result_buffer.make_source());
    let mut matching = FJSHyperPatternMatching::new(
        &automaton,
        notifier,
        vec![AppendOnlySequence::new(), AppendOnlySequence::new()],
    );
    matching.feed("a", 0);
    matching.set_eof(0);
    let ids = vec![0, 1];
    assert!(matching.in_range(&StartPosition { start_indices: vec![0, 5] }, &ids));
    assert!(!matching.in_range(&StartPosition { start_indices: vec![1, 0] }, &ids));
}

#[test]
fn fjs_reports_a_single_match() {
    // One variable on one stream: the word "x y" matches.
    let mut automaton = NFAH::new(1);
    let s0 = automaton.add_state(true, false);
    let s1 = automaton.add_state(false, false);
    let s2 = automaton.add_state(false, true);
    automaton.add_nfah_transition(s0, "x".to_string(), 0, s1);
    automaton.add_nfah_transition(s1, "y".to_string(), 0, s2);

    let result_buffer = SharedBuffer::new();
    let notifier = SharedBufferResultNotifier::new(result_buffer.make_source());
    let mut sink = result_buffer.make_sink();
    let mut matching = FJSHyperPatternMatching::new(&automaton, notifier, vec![AppendOnlySequence::new()]);
    matching.feed("z", 0);
    matching.feed("x", 0);
    matching.feed("y", 0);
    matching.set_eof(0);
    matching.consume_remaining();
    // The match is reported when it completes, and once more at the end,
    // as its configuration still waits for input until the stream ends.
    for _ in 0..2 {
        let result = sink.pop().expect("a match");
        assert_eq!(result.intervals, vec![MatchingInterval::new(1, 2)]);
        assert_eq!(result.ids, vec![0]);
    }
    assert!(sink.pop().is_none());
}

fn collect_results(
    sink: &mut hyper_pattern_matching::shared_buffer::SharedBufferSink<hyper_pattern_matching::result_notifier::MatchingResult>,
) -> Vec<(Vec<MatchingInterval>, Vec<usize>)> {
    let mut all = Vec::new();
    while let Some(r) = sink.pop() {
        all.push((r.intervals, r.ids));
    }
    all.sort_by(|a, b| format!("{:?}", a).cmp(&format!("{:?}", b)));
    all.dedup();
    all
}

#[test]
fn fjs_takes_fewer_streams_than_variables_and_agrees_with_naive() {
    // Both variables read the single stream "a c b d".
    let automaton = run_automaton();
    let fjs_buffer = SharedBuffer::new();
    let mut fjs_sink = fjs_buffer.make_sink();
    let mut fjs = FJSHyperPatternMatching::new(
        &automaton,
        SharedBufferResultNotifier::new(fjs_buffer.make_source()),
        vec![AppendOnlySequence::new()],
    );
    let naive_buffer = SharedBuffer::new();
    let mut naive_sink = naive_buffer.make_sink();
    let mut naive = hyper_pattern_matching::naive_hyper_pattern_matching::NaiveHyperPatternMatching::new(
        &automaton,
        SharedBufferResultNotifier::new(naive_buffer.make_source()),
        vec![AppendOnlySequence::new()],
    );
    for letter in ["a", "c", "b", "d"] {
        fjs.feed(letter, 0);
        naive.feed(letter, 0);
    }
    fjs.set_eof(0);
    naive.set_eof(0);
    fjs.consume_remaining();
    naive.consume_remaining();
    let fjs_results = collect_results(&mut fjs_sink);
    let naive_results = collect_results(&mut naive_sink);
    assert_eq!(fjs_results, naive_results);
    // The first variable reads "a c" from position 0, the second "b d"
    // from position 2.
    assert!(fjs_results.contains(&(
        vec![MatchingInterval::new(0, 1), MatchingInterval::new(2, 3)],
        vec![0, 0]
    )));
}
