use hyper_pattern_matching::automata::NFA;

#[test]
fn test_product_nfa() {
    // One or more 'a' followed by a single 'b'.
    let mut nfa1 = NFA::new(0);
    let s0_1 = nfa1.add_state(true, false);
    let s1_1 = nfa1.add_state(false, false);
    let s2_1 = nfa1.add_state(false, true);
    nfa1.add_transition(s0_1, "a".to_string(), s1_1);
    nfa1.add_transition(s1_1, "b".to_string(), s2_1);
    nfa1.add_transition(s0_1, "a".to_string(), s0_1);

    // One or more 'a', then "b" or "bc".
    let mut nfa2 = NFA::new(0);
    let p0_2 = nfa2.add_state(true, false);
    let p1_2 = nfa2.add_state(false, false);
    let p2_2 = nfa2.add_state(false, true);
    let p3_2 = nfa2.add_state(false, false);
    nfa2.add_transition(p0_2, "a".to_string(), p0_2);
    nfa2.add_transition(p0_2, "a".to_string(), p1_2);
    nfa2.add_transition(p1_2, "b".to_string(), p2_2);
    nfa2.add_transition(p1_2, "b".to_string(), p3_2);
    nfa2.add_transition(p3_2, "c".to_string(), p2_2);

    let product_nfa = nfa1.product(&nfa2);

    assert!(
        !product_nfa.is_empty(),
        "They both accept 'ab', so intersection is not empty."
    );
    let length = product_nfa.shortest_accepted_word_length();
    assert_eq!(length, 2, "Shortest word in the intersection is 'ab' of length 2.");
}

#[test]
fn product_pairs_reachable_states() {
    // a: x -a-> y (final); b: u -a-> v (final), u -b-> u
    let mut a = NFA::new(0);
    let x = a.add_state(true, false);
    let y = a.add_state(false, true);
    a.add_transition(x, "a".to_string(), y);
    let mut b = NFA::new(0);
    let u = b.add_state(true, false);
    let v = b.add_state(false, true);
    b.add_transition(u, "a".to_string(), v);
    b.add_transition(u, "b".to_string(), u);

    let p = a.product(&b);
    // (x, u) initial, then (y, v) final; "b" is read by b only.
    assert_eq!(p.states.len(), 2);
    assert_eq!(p.initial_states, vec![0]);
    assert!(!p.states[0].is_final);
    assert!(p.states[1].is_final);
    assert_eq!(p.states[0].transitions.len(), 1);
    assert_eq!(p.states[0].transitions[0].label, "a".to_string());
    assert_eq!(p.states[0].transitions[0].next_state, 1);
    assert!(p.states[1].transitions.is_empty());
}

#[test]
fn product_of_disjoint_languages_is_empty() {
    let mut a = NFA::new(0);
    let x = a.add_state(true, false);
    let y = a.add_state(false, true);
    a.add_transition(x, "a".to_string(), y);
    let mut b = NFA::new(0);
    let u = b.add_state(true, false);
    let v = b.add_state(false, true);
    b.add_transition(u, "b".to_string(), v);
    let p = a.product(&b);
    assert!(p.is_empty());
    assert_eq!(p.states.len(), 1);
}
