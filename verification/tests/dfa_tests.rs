use hyper_pattern_matching::dfa::DFA;

fn ends_in_one() -> DFA<u64, char> {
    let mut dfa = DFA::new(0, vec!['0', '1']);
    dfa.add_state(1);
    dfa.set_final(1);
    dfa.add_transition(0, '0', 0);
    dfa.add_transition(0, '1', 1);
    dfa.add_transition(1, '0', 0);
    dfa.add_transition(1, '1', 1);
    dfa
}

#[test]
fn test_dfa_accepts_ends_in_one() {
    let mut dfa = DFA::new(0u64, vec!['0', '1']);
    dfa.add_state(1);
    dfa.set_final(1);
    dfa.add_transition(0, '0', 0);
    dfa.add_transition(0, '1', 1);
    dfa.add_transition(1, '0', 0);
    dfa.add_transition(1, '1', 1);

    assert!(!dfa.accepts(&[]));
    assert!(dfa.accepts(&['1']));
    assert!(!dfa.accepts(&['0']));
    assert!(!dfa.accepts(&['1', '0', '1', '1', '0']));
    assert!(dfa.accepts(&['1', '0', '1', '1', '1']));
}

#[test]
fn test_dfa_negation() {
    let dfa = ends_in_one();
    assert!(!dfa.accepts(&[]));
    assert!(dfa.accepts(&['1']));
    assert!(dfa.accepts(&['0', '1']));
    assert!(!dfa.accepts(&['1', '0', '1', '0']));

    let neg_dfa = dfa.negate();
    assert!(neg_dfa.accepts(&[]));
    assert!(!neg_dfa.accepts(&['1']));
    assert!(!neg_dfa.accepts(&['0', '1']));
    assert!(neg_dfa.accepts(&['1', '0', '1', '0']));
}

#[test]
fn dfa_test_dfa_negation() {
    let mut dfa = DFA::new(0u64, vec!['0', '1']);
    dfa.add_state(1);
    dfa.set_final(1);
    dfa.add_transition(0, '0', 0);
    dfa.add_transition(0, '1', 1);
    dfa.add_transition(1, '0', 0);
    dfa.add_transition(1, '1', 1);

    assert!(!dfa.accepts(&[]));
    assert!(dfa.accepts(&['1']));
    assert!(dfa.accepts(&['0', '1']));
    assert!(!dfa.accepts(&['1', '0', '1', '0']));

    let neg_dfa = dfa.negate();
    assert!(neg_dfa.accepts(&[]));
    assert!(!neg_dfa.accepts(&['1']));
    assert!(!neg_dfa.accepts(&['0', '1']));
    assert!(neg_dfa.accepts(&['1', '0', '1', '0']));
}

#[test]
fn missing_transition_rejects() {
    let mut dfa = DFA::new(0u64, vec!['a', 'b']);
    dfa.add_state(1);
    dfa.set_final(1);
    dfa.add_transition(0, 'a', 1);
    assert!(dfa.accepts(&['a']));
    assert!(!dfa.accepts(&['b']));
    assert!(!dfa.accepts(&['a', 'a']));
}

#[test]
fn make_complete_keeps_language() {
    let mut dfa = DFA::new(0u64, vec!['a', 'b']);
    dfa.add_state(1);
    dfa.set_final(1);
    dfa.add_transition(0, 'a', 1);
    dfa.make_complete(99);
    assert!(dfa.states.contains(&99));
    assert!(dfa.accepts(&['a']));
    assert!(!dfa.accepts(&['b']));
    assert!(!dfa.accepts(&['a', 'b', 'a']));
    let neg = dfa.negate();
    assert!(neg.accepts(&['b']));
    assert!(!neg.accepts(&['a']));
}

#[test]
fn add_state_reports_novelty() {
    let mut dfa = DFA::new(0u64, vec!['a']);
    assert!(dfa.add_state(1));
    assert!(!dfa.add_state(1));
    assert!(!dfa.add_state(0));
    assert_eq!(dfa.states.len(), 2);
}
