use hyper_pattern_matching::dfa::DFA;
use hyper_pattern_matching::dfa_earliest_pattern_matcher::DFAEarliestPatternMatcher;

const Q0: u64 = 0;
const Q1: u64 = 1;
const Q2: u64 = 2;
const Q3: u64 = 3;
const QD: u64 = 4;

fn dummy_dfa() -> DFA<u64, char> {
    DFA {
        states: vec![Q0, Q1, Q2, QD],
        alphabet: vec!['a', 'b'],
        initial: Q0,
        finals: vec![Q2],
        transitions: vec![
            (Q0, 'a', Q1),
            (Q0, 'b', QD),
            (Q1, 'a', QD),
            (Q1, 'b', Q2),
            (Q2, 'a', QD),
            (Q2, 'b', QD),
            (QD, 'a', QD),
            (QD, 'b', QD),
        ],
    }
}

fn multi_pattern_dfa() -> DFA<u64, char> {
    DFA {
        states: vec![Q0, Q1, Q2, Q3, QD],
        alphabet: vec!['a', 'b'],
        initial: Q0,
        finals: vec![Q2, Q3],
        transitions: vec![
            (Q0, 'a', Q1),
            (Q0, 'b', QD),
            (Q1, 'a', QD),
            (Q1, 'b', Q2),
            (Q2, 'a', Q1),
            (Q2, 'b', Q3),
            (Q3, 'a', Q1),
            (Q3, 'b', QD),
            (QD, 'a', QD),
            (QD, 'b', QD),
        ],
    }
}

#[test]
fn test_no_feed() {
    let matcher = DFAEarliestPatternMatcher::new(dummy_dfa());
    assert_eq!(matcher.earliest_starting_position(), None);
    assert_eq!(matcher.current_matching(), None);
}

#[test]
fn test_single_match() {
    let mut matcher = DFAEarliestPatternMatcher::new(dummy_dfa());
    matcher.feed(&'a');
    assert_eq!(matcher.current_matching(), None);
    assert_eq!(matcher.earliest_starting_position(), Some(0));
    assert_eq!(matcher.len, 1);

    matcher.feed(&'b');
    assert_eq!(matcher.current_matching(), Some(0));
    assert_eq!(matcher.earliest_starting_position(), Some(0));
    assert_eq!(matcher.len, 2);
}

#[test]
fn test_overlapping_matches() {
    let mut matcher = DFAEarliestPatternMatcher::new(dummy_dfa());
    for ch in ['a', 'b', 'a', 'b'] {
        matcher.feed(&ch);
    }
    assert_eq!(matcher.current_matching(), Some(2));
    assert_eq!(matcher.earliest_starting_position(), Some(0));
    assert_eq!(matcher.len, 4);
}

#[test]
fn test_earliest_match_critical() {
    let mut matcher = DFAEarliestPatternMatcher::new(multi_pattern_dfa());

    matcher.feed(&'a');
    assert_eq!(matcher.current_matching(), None);
    assert_eq!(matcher.earliest_starting_position(), Some(0));

    matcher.feed(&'b');
    assert_eq!(matcher.current_matching(), Some(0));
    assert_eq!(matcher.earliest_starting_position(), Some(0));

    matcher.feed(&'a');
    assert_eq!(matcher.current_matching(), None);
    assert_eq!(matcher.earliest_starting_position(), Some(0));

    matcher.feed(&'b');
    assert_eq!(matcher.current_matching(), Some(0));
    assert_eq!(matcher.earliest_starting_position(), Some(0));

    matcher.feed(&'b');
    assert_eq!(matcher.current_matching(), Some(0));
    assert_eq!(matcher.earliest_starting_position(), Some(0));
    assert_eq!(matcher.len, 5);
}

#[test]
fn runs_without_transition_die() {
    // Only "ab" has transitions; anything else kills the run.
    let dfa = DFA {
        states: vec![0u64, 1, 2],
        alphabet: vec!['a', 'b', 'c'],
        initial: 0,
        finals: vec![2],
        transitions: vec![(0, 'a', 1), (1, 'b', 2)],
    };
    let mut matcher = DFAEarliestPatternMatcher::new(dfa);
    matcher.feed(&'c');
    assert_eq!(matcher.earliest_starting_position(), None);
    matcher.feed(&'a');
    assert_eq!(matcher.earliest_starting_position(), Some(1));
    matcher.feed(&'b');
    assert_eq!(matcher.current_matching(), Some(1));
    matcher.feed(&'c');
    assert_eq!(matcher.current_matching(), None);
    assert_eq!(matcher.earliest_starting_position(), None);
}
