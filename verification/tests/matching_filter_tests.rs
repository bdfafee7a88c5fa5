use hyper_pattern_matching::dfa::DFA;
use hyper_pattern_matching::dfa_earliest_pattern_matcher::DFAEarliestPatternMatcher;
use hyper_pattern_matching::matching_filter::MatchingFilter;
use hyper_pattern_matching::sequence::AppendOnlySequence;

const INITIAL: u64 = 0;
const MIDDLE: u64 = 1;
const FINAL: u64 = 2;

fn create_test_dfa() -> DFA<u64, char> {
    DFA {
        states: vec![INITIAL, MIDDLE, FINAL],
        alphabet: vec!['a', 'b', 'c'],
        initial: INITIAL,
        finals: vec![FINAL],
        transitions: vec![(INITIAL, 'a', MIDDLE), (MIDDLE, 'b', FINAL)],
    }
}

fn filtered(input: &[char]) -> Vec<Option<char>> {
    let matcher = DFAEarliestPatternMatcher::new(create_test_dfa());
    let mut input_seq = AppendOnlySequence::new();
    for c in input {
        input_seq.append(*c);
    }
    let mut filter = MatchingFilter::new(matcher, input_seq.readable_view());
    filter.consume_input(&input_seq);
    let output = filter.readable_view();
    output.readable_slice(filter.output_stream()).to_vec()
}

#[test]
fn test_matching_filter_basic() {
    let output_slice = filtered(&['a', 'b', 'c']);
    assert_eq!(output_slice.len(), 3);
    assert_eq!(output_slice[0], Some('a'));
    assert_eq!(output_slice[1], Some('b'));
    assert_eq!(output_slice[2], None);
}

#[test]
fn test_matching_filter_multiple_matches() {
    let output_slice = filtered(&['a', 'b', 'c', 'a', 'b', 'c']);
    assert_eq!(output_slice.len(), 6);
    assert_eq!(output_slice[0], Some('a'));
    assert_eq!(output_slice[1], Some('b'));
    assert_eq!(output_slice[2], None);
    assert_eq!(output_slice[3], Some('a'));
    assert_eq!(output_slice[4], Some('b'));
    assert_eq!(output_slice[5], None);
}

#[test]
fn test_matching_filter_no_matches() {
    let output_slice = filtered(&['c', 'c', 'c']);
    assert_eq!(output_slice.len(), 3);
    assert_eq!(output_slice[0], None);
    assert_eq!(output_slice[1], None);
    assert_eq!(output_slice[2], None);
}

#[test]
fn test_matching_filter_empty_input() {
    let output_slice = filtered(&[]);
    assert_eq!(output_slice.len(), 0);
}

#[test]
fn pending_prefix_waits_until_closed() {
    let matcher = DFAEarliestPatternMatcher::new(create_test_dfa());
    let mut input_seq = AppendOnlySequence::new();
    input_seq.append('c');
    input_seq.append('a');
    let mut filter = MatchingFilter::new(matcher, input_seq.readable_view());
    filter.consume_input(&input_seq);
    // 'c' is decided, 'a' may still start a matching.
    assert_eq!(filter.output_stream().as_slice(), &[None]);
    input_seq.close();
    filter.check_closed(&input_seq);
    assert_eq!(filter.output_stream().as_slice(), &[None, None]);
    assert!(filter.output_stream().is_closed());
}
