use hyper_pattern_matching::automata::{NFA, NFAH};

#[test]
fn test_add_state() {
    let mut automaton = NFAH::new(1);
    let current_state = automaton.add_state(true, false);
    assert_eq!(automaton.initial_states.len(), 1);
    assert!(automaton.initial_states.contains(&current_state));
    assert!(!automaton.states[current_state].is_final);
    assert_eq!(automaton.states[current_state].transitions.len(), 0);
}

#[test]
fn test_add_transition() {
    let mut automaton = NFAH::new(1);
    let s1 = automaton.add_state(true, false);
    let s2 = automaton.add_state(false, true);

    let t = automaton.add_nfah_transition(s1, "a".to_string(), 0, s2);
    assert_eq!(t.label.0, "a");
    assert_eq!(t.label.1, 0);
    assert_eq!(t.next_state, s2);

    let all_outgoing = &automaton.states[s1].transitions;
    assert_eq!(all_outgoing.len(), 1);
    assert_eq!(all_outgoing[0].label.0, "a");
    assert_eq!(all_outgoing[0].label.1, 0);
    assert_eq!(all_outgoing[0].next_state, s2);
}

fn chain_automaton() -> (NFAH, [usize; 5]) {
    let mut automaton = NFAH::new(2);
    let s0 = automaton.add_state(true, false);
    let s1 = automaton.add_state(false, false);
    let s2 = automaton.add_state(false, false);
    let s3 = automaton.add_state(false, false);
    let sf = automaton.add_state(false, true);
    automaton.add_nfah_transition(s0, "c".to_string(), 0, s1);
    automaton.add_nfah_transition(s1, "c".to_string(), 1, s2);
    automaton.add_nfah_transition(s2, "a".to_string(), 0, s3);
    automaton.add_nfah_transition(s3, "b".to_string(), 1, s2);
    automaton.add_nfah_transition(s2, "c".to_string(), 0, sf);
    (automaton, [s0, s1, s2, s3, sf])
}

#[test]
fn test_iter() {
    let (automaton, [s0, s1, s2, s3, sf]) = chain_automaton();
    let mut iter = automaton.iter_states();
    assert_eq!(iter.next(), Some(s0));
    assert_eq!(iter.next(), Some(s1));
    assert_eq!(iter.next(), Some(s2));
    assert_eq!(iter.next(), Some(s3));
    assert_eq!(iter.next(), Some(sf));
    assert_eq!(iter.next(), None);
}

#[test]
fn test_shortest_accepted_word_length() {
    let (automaton, _) = chain_automaton();
    assert_eq!(automaton.shortest_accepted_word_length(), 3);
    let prefixes = automaton.accepted_prefixes(3);
    assert_eq!(prefixes.len(), 2);
}

#[test]
fn test_accepted_prefixes() {
    let mut automaton = NFAH::new(2);
    let s1 = automaton.add_state(true, false);
    let s12 = automaton.add_state(false, false);
    let s2 = automaton.add_state(false, false);
    let s13 = automaton.add_state(false, false);
    let s3 = automaton.add_state(false, true);

    automaton.add_nfah_transition(s1, "a".to_string(), 0, s12);
    automaton.add_nfah_transition(s12, "b".to_string(), 1, s2);
    automaton.add_nfah_transition(s1, "a".to_string(), 0, s1);
    automaton.add_nfah_transition(s1, "b".to_string(), 1, s1);
    automaton.add_nfah_transition(s1, "c".to_string(), 0, s13);
    automaton.add_nfah_transition(s13, "d".to_string(), 1, s3);

    let p0 = automaton.accepted_prefixes(0);
    assert_eq!(p0.len(), 1);
    assert!(p0.contains(&Vec::new()));

    let p1 = automaton.accepted_prefixes(1);
    assert_eq!(p1.len(), 3);
    assert!(p1.contains(&vec![("a".to_string(), 0)]));
    assert!(p1.contains(&vec![("b".to_string(), 1)]));
    assert!(p1.contains(&vec![("c".to_string(), 0)]));
}

#[test]
fn test_remove_unreachable_transitions() {
    let mut automaton = NFAH::new(3);
    let s1 = automaton.add_state(true, false);
    let s2 = automaton.add_state(false, false);
    let s3 = automaton.add_state(false, true);
    let s4 = automaton.add_state(false, false);

    automaton.add_nfah_transition(s1, "a".to_string(), 0, s2);
    automaton.add_nfah_transition(s2, "".to_string(), 1, s3);
    automaton.add_nfah_transition(s1, "x".to_string(), 2, s4);

    automaton.remove_unreachable_transitions();

    {
        let s1_trans = &automaton.states[s1].transitions;
        assert_eq!(s1_trans.len(), 1);
        assert_eq!(s1_trans[0].label.0, "a");
        assert_eq!(s1_trans[0].label.1, 0);
    }
    assert_eq!(automaton.states[s4].transitions.len(), 0);
}

#[test]
fn test_emptiness_check() {
    let mut nfa1 = NFA::new(0);
    let s0_1 = nfa1.add_state(true, false);
    let s1_1 = nfa1.add_state(false, true);
    nfa1.add_transition(s0_1, "a".to_string(), s1_1);
    assert!(!nfa1.is_empty(), "There is a path to a final state.");

    let mut nfa2 = NFA::new(0);
    let s0_2 = nfa2.add_state(true, false);
    let s1_2 = nfa2.add_state(false, false);
    nfa2.add_transition(s0_2, "b".to_string(), s1_2);
    assert!(nfa2.is_empty(), "No final state => empty language.");

    let mut nfa3 = NFA::new(0);
    let _s0_3 = nfa3.add_state(true, false);
    let _s1_3 = nfa3.add_state(false, false);
    let _s2_3 = nfa3.add_state(false, true);
    assert!(nfa3.is_empty(), "Final state is unreachable => empty language.");
}

#[test]
fn unreachable_states_keep_their_transitions() {
    let mut automaton = NFA::new(0);
    let s0 = automaton.add_state(true, true);
    let s1 = automaton.add_state(false, false);
    let s2 = automaton.add_state(false, false);
    // s1 is not reachable; its transition to the dead state s2 stays.
    automaton.add_transition(s1, "x".to_string(), s2);
    automaton.add_transition(s0, "y".to_string(), s2);
    automaton.remove_unreachable_transitions();
    assert_eq!(automaton.states[s0].transitions.len(), 0);
    assert_eq!(automaton.states[s1].transitions.len(), 1);
}

#[test]
fn states_reached_in_exact_steps() {
    let (automaton, [s0, s1, s2, s3, sf]) = chain_automaton();
    assert_eq!(automaton.states_reachable_in_exactly_n_steps(0), vec![s0]);
    assert_eq!(automaton.states_reachable_in_exactly_n_steps(1), vec![s1]);
    assert_eq!(automaton.states_reachable_in_exactly_n_steps(2), vec![s2]);
    assert_eq!(automaton.states_reachable_in_exactly_n_steps(3), vec![s3, sf]);
    assert_eq!(automaton.states_reachable_in_exactly_n_steps(4), vec![s2]);
}

#[test]
fn initial_final_state_accepts_the_empty_word() {
    let mut automaton = NFA::new(0);
    automaton.add_state(true, true);
    assert!(!automaton.is_empty());
    assert_eq!(automaton.shortest_accepted_word_length(), 0);
}

#[test]
fn pruning_twice_changes_nothing() {
    let mut automaton = NFAH::new(3);
    let s1 = automaton.add_state(true, false);
    let s2 = automaton.add_state(false, false);
    let s3 = automaton.add_state(false, true);
    let s4 = automaton.add_state(false, false);
    automaton.add_nfah_transition(s1, "a".to_string(), 0, s2);
    automaton.add_nfah_transition(s2, "".to_string(), 1, s3);
    automaton.add_nfah_transition(s1, "x".to_string(), 2, s4);
    automaton.add_nfah_transition(s4, "y".to_string(), 0, s4);

    automaton.remove_unreachable_transitions();
    let once: Vec<Vec<(String, usize, usize)>> = automaton
        .states
        .iter()
        .map(|s| s.transitions.iter().map(|t| (t.label.0.clone(), t.label.1, t.next_state)).collect())
        .collect();
    automaton.remove_unreachable_transitions();
    let twice: Vec<Vec<(String, usize, usize)>> = automaton
        .states
        .iter()
        .map(|s| s.transitions.iter().map(|t| (t.label.0.clone(), t.label.1, t.next_state)).collect())
        .collect();
    assert_eq!(once, twice);
    assert_eq!(once[s1].len(), 1);
    assert_eq!(once[s2].len(), 1);
}
