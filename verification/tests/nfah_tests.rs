use hyper_pattern_matching::automata::NFAH;

#[test]
fn test_project() {
    // States s0 (initial, not final), s1 (not initial, final), over 3 variables.
    let mut nfa_h = NFAH::new(3);
    let s0 = nfa_h.add_state(true, false);
    let s1 = nfa_h.add_state(false, true);

    nfa_h.add_nfah_transition(s0, "a".to_string(), 0, s1);
    nfa_h.add_nfah_transition(s0, "b".to_string(), 1, s1);
    nfa_h.add_nfah_transition(s1, "c".to_string(), 2, s0);

    // Project onto var=1
    let eps_nfa = nfa_h.project(1);

    let mut found_some_b = false;
    let mut none_count = 0;
    for st in &eps_nfa.states {
        for t in &st.transitions {
            match &t.label {
                Some(label_str) if label_str == "b" => found_some_b = true,
                None => none_count += 1,
                Some(other) => panic!("Found unexpected label: {:?}", other),
            }
        }
    }
    assert!(
        found_some_b,
        "Expected Some(\"b\") transition in projected automaton."
    );
    assert_eq!(none_count, 2, "Expected exactly 2 ε-transitions (None).");
}

#[test]
fn test_project_with_final() {
    let mut nfa_h = NFAH::new(3);
    let s0 = nfa_h.add_state(true, false);
    let s1 = nfa_h.add_state(false, true);

    nfa_h.add_nfah_transition(s0, "a".to_string(), 0, s1);
    nfa_h.add_nfah_transition(s0, "b".to_string(), 1, s1);
    nfa_h.add_nfah_transition(s1, "c".to_string(), 0, s0);

    // Project onto var=0
    let eps_nfa = nfa_h.project(0);
    assert_eq!(1, eps_nfa.initial_states.len());

    let mut found_some_a = false;
    let mut found_some_c = false;
    let mut none_count = 0;
    for st in &eps_nfa.states {
        for t in &st.transitions {
            match &t.label {
                Some(label_str) if label_str == "a" => found_some_a = true,
                Some(label_str) if label_str == "c" => found_some_c = true,
                None => none_count += 1,
                Some(other) => panic!("Found unexpected label: {:?}", other),
            }
        }
    }
    assert!(
        found_some_a,
        "Expected Some(\"a\") transition in projected automaton."
    );
    assert!(
        found_some_c,
        "Expected Some(\"c\") transition in projected automaton."
    );
    assert_eq!(none_count, 1, "Expected exactly 1 ε-transitions (None).");
}

#[test]
fn projection_keeps_only_reachable_states() {
    let mut nfa_h = NFAH::new(2);
    let s0 = nfa_h.add_state(true, false);
    let s1 = nfa_h.add_state(false, true);
    let unreachable = nfa_h.add_state(false, true);
    nfa_h.add_nfah_transition(s0, "a".to_string(), 0, s1);
    nfa_h.add_nfah_transition(unreachable, "b".to_string(), 1, s0);

    let eps_nfa = nfa_h.project(0);
    assert_eq!(eps_nfa.states.len(), 2);
    assert_eq!(eps_nfa.initial_states, vec![0]);
    assert!(!eps_nfa.states[0].is_final);
    assert!(eps_nfa.states[1].is_final);
    assert_eq!(eps_nfa.states[0].transitions.len(), 1);
    assert_eq!(eps_nfa.states[0].transitions[0].label, Some("a".to_string()));
    assert_eq!(eps_nfa.states[0].transitions[0].next_state, 1);
}

#[test]
fn projection_with_final_marks_only_the_location() {
    let mut nfa_h = NFAH::new(1);
    let s0 = nfa_h.add_state(true, false);
    let s1 = nfa_h.add_state(false, false);
    let s2 = nfa_h.add_state(false, true);
    nfa_h.add_nfah_transition(s0, "a".to_string(), 0, s1);
    nfa_h.add_nfah_transition(s1, "b".to_string(), 0, s2);

    let eps_nfa = nfa_h.project_with_final(s1, 0);
    assert_eq!(eps_nfa.states.len(), 3);
    let finals: Vec<bool> = eps_nfa.states.iter().map(|s| s.is_final).collect();
    assert_eq!(finals, vec![false, true, false]);
}
