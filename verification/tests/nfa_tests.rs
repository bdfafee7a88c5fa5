use hyper_pattern_matching::automata::EpsilonNFA;

#[test]
fn test_epsilon_nfa_to_nfa_powerset() {
    // s0 (initial), s1 (final), s2 (final)
    // s0 -- ε --> s1, s1 -- "a" --> s2, s2 -- ε --> s0
    let mut eps_nfa = EpsilonNFA::new(0);
    let s0 = eps_nfa.add_state(true, false);
    let s1 = eps_nfa.add_state(false, true);
    let s2 = eps_nfa.add_state(false, true);

    eps_nfa.add_transition(s0, None, s1);
    eps_nfa.add_transition(s1, Some("a".to_string()), s2);
    eps_nfa.add_transition(s2, None, s0);

    let result_nfa = eps_nfa.to_nfa_powerset();

    assert_eq!(result_nfa.initial_states.len(), 1);

    let has_a_transition = result_nfa
        .states
        .iter()
        .any(|st| st.transitions.iter().any(|t| t.label == "a"));
    assert!(
        has_a_transition,
        "Expected at least one transition labeled \"a\" in the powerset NFA."
    );

    let any_final_state = result_nfa.states.iter().any(|st| st.is_final);
    assert!(
        any_final_state,
        "Expected at least one final state in the powerset-constructed NFA."
    );
}

#[test]
fn powerset_merges_epsilon_closures() {
    // s0 -ε-> s1, s0 -a-> s2, s1 -a-> s3 (final), s2 -b-> s3
    let mut eps_nfa = EpsilonNFA::new(0);
    let s0 = eps_nfa.add_state(true, false);
    let s1 = eps_nfa.add_state(false, false);
    let s2 = eps_nfa.add_state(false, false);
    let s3 = eps_nfa.add_state(false, true);
    eps_nfa.add_transition(s0, None, s1);
    eps_nfa.add_transition(s0, Some("a".to_string()), s2);
    eps_nfa.add_transition(s1, Some("a".to_string()), s3);
    eps_nfa.add_transition(s2, Some("b".to_string()), s3);

    let nfa = eps_nfa.to_nfa_powerset();
    // {s0, s1} -a-> {s2, s3} -b-> {s3}
    assert_eq!(nfa.states.len(), 3);
    assert_eq!(nfa.initial_states, vec![0]);
    assert!(!nfa.states[0].is_final);
    assert_eq!(nfa.states[0].transitions.len(), 1);
    let after_a = nfa.states[0].transitions[0].next_state;
    assert!(nfa.states[after_a].is_final);
    assert_eq!(nfa.states[after_a].transitions.len(), 1);
    assert_eq!(nfa.states[after_a].transitions[0].label, "b");
    assert_eq!(nfa.shortest_accepted_word_length(), 1);
}

#[test]
fn powerset_of_automaton_without_letters() {
    let mut eps_nfa = EpsilonNFA::new(0);
    let s0 = eps_nfa.add_state(true, false);
    let s1 = eps_nfa.add_state(false, true);
    eps_nfa.add_transition(s0, None, s1);
    let nfa = eps_nfa.to_nfa_powerset();
    assert_eq!(nfa.states.len(), 1);
    assert!(nfa.states[0].is_final);
    assert!(nfa.states[0].transitions.is_empty());
}
