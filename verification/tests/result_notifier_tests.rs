use hyper_pattern_matching::result_notifier::{
    result_line, MatchingInterval, MatchingResult, ResultNotifier, SharedBufferResultNotifier,
    StdoutResultNotifier,
};
use hyper_pattern_matching::shared_buffer::SharedBuffer;

#[test]
fn test_stdout_result_notifier() {
    let mut notifier = StdoutResultNotifier;
    notifier.notify(&[MatchingInterval::new(1, 2), MatchingInterval::new(3, 4)], &[0, 1]);
}

#[test]
fn test_shared_buffer_result_notifier() {
    let buffer = SharedBuffer::new();
    let source = buffer.make_source();
    let mut notifier = SharedBufferResultNotifier::new(source);
    notifier.notify(&[MatchingInterval::new(1, 2), MatchingInterval::new(3, 4)], &[0, 1]);

    let mut sink = buffer.make_sink();
    let result = sink.pop().expect("No data in shared buffer");
    assert_eq!(result.intervals.len(), 2);
    assert_eq!(result.ids.len(), 2);
    assert_eq!(
        result,
        MatchingResult {
            intervals: vec![MatchingInterval::new(1, 2), MatchingInterval::new(3, 4)],
            ids: vec![0, 1]
        }
    );
}

#[test]
fn stdout_line_format() {
    let line = result_line(&[MatchingInterval::new(1, 2), MatchingInterval::new(3, 4)], &[0, 1]);
    assert_eq!(line, "(0: 1, 2), (1: 3, 4)");
    assert_eq!(result_line(&[], &[]), "");
}

#[test]
fn matching_result_pairs_intervals_and_ids() {
    let r = MatchingResult::new(vec![MatchingInterval::new(5, 7)], vec![2]);
    assert_eq!(r.intervals[0].start, 5);
    assert_eq!(r.intervals[0].end, 7);
    assert_eq!(r.ids, vec![2]);
}

#[test]
fn cloned_notifiers_write_to_the_same_queue() {
    let result_buffer = SharedBuffer::new();
    let mut first = SharedBufferResultNotifier::new(result_buffer.make_source());
    let mut second = first.clone();
    let mut sink = result_buffer.make_sink();
    first.notify(&[MatchingInterval::new(0, 1)], &[0]);
    second.notify(&[MatchingInterval::new(2, 3)], &[1]);
    let a = sink.pop().expect("first matching");
    let b = sink.pop().expect("second matching");
    assert_eq!(a.intervals, vec![MatchingInterval::new(0, 1)]);
    assert_eq!(a.ids, vec![0]);
    assert_eq!(b.intervals, vec![MatchingInterval::new(2, 3)]);
    assert_eq!(b.ids, vec![1]);
    assert!(sink.pop().is_none());
}
