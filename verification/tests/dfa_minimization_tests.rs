use hyper_pattern_matching::automata::NFA;
use hyper_pattern_matching::dfa::DFA;

fn contains_one_one() -> DFA<String, char> {
    let mut dfa = DFA::new("S0".to_string(), vec!['0', '1']);
    dfa.add_state("S1".to_string());
    dfa.add_state("S2".to_string());
    dfa.set_final("S2".to_string());
    dfa.add_transition("S0".to_string(), '0', "S0".to_string());
    dfa.add_transition("S0".to_string(), '1', "S1".to_string());
    dfa.add_transition("S1".to_string(), '0', "S0".to_string());
    dfa.add_transition("S1".to_string(), '1', "S2".to_string());
    dfa.add_transition("S2".to_string(), '0', "S2".to_string());
    dfa.add_transition("S2".to_string(), '1', "S2".to_string());
    dfa
}

#[test]
fn test_brzozowski_minimization() {
    // All binary strings containing "11" as a substring.
    let dfa = contains_one_one();

    assert!(!dfa.accepts(&['0', '0', '1', '0']));
    assert!(dfa.accepts(&['1', '1']));
    assert!(dfa.accepts(&['1', '0', '1', '1', '0']));
    assert!(!dfa.accepts(&['0', '1', '0', '1', '0']));

    let minimized = dfa.minimize_brzozowski();

    assert!(!minimized.accepts(&['0', '0', '1', '0']));
    assert!(minimized.accepts(&['1', '1']));
    assert!(minimized.accepts(&['1', '0', '1', '1', '0']));
    assert!(!minimized.accepts(&['0', '1', '0', '1', '0']));
}

#[test]
fn brzozowski_merges_equivalent_states() {
    // "contains 11" with the accepting state split in two equivalent copies.
    let mut dfa = contains_one_one();
    dfa.add_state("S3".to_string());
    dfa.set_final("S3".to_string());
    dfa.add_transition("S2".to_string(), '0', "S3".to_string());
    dfa.add_transition("S3".to_string(), '0', "S2".to_string());
    dfa.add_transition("S3".to_string(), '1', "S3".to_string());
    assert_eq!(dfa.states.len(), 4);

    let minimized = dfa.minimize_brzozowski();
    assert_eq!(minimized.states.len(), 3);
    assert_eq!(minimized.initial, 0);
    assert!(minimized.accepts(&['1', '1', '0', '0', '1']));
    assert!(!minimized.accepts(&['1', '0', '1']));
    assert!(!minimized.accepts(&[]));
}

#[test]
fn reversed_dfa_turns_transitions_around() {
    let dfa = contains_one_one();
    let rev = dfa.to_reversed_nfa();
    assert_eq!(rev.dimensions, 1);
    assert_eq!(rev.states.len(), 3);
    // Only S2 (index 2) accepts in the DFA, so only it is initial here.
    assert_eq!(rev.initial_states, vec![2]);
    // Only S0 (index 0) is initial in the DFA, so only it accepts here.
    assert!(rev.states[0].is_final);
    assert!(!rev.states[1].is_final);
    assert!(!rev.states[2].is_final);
    // S1 --1--> S2 becomes S2 --1--> S1.
    assert!(rev.states[2]
        .transitions
        .iter()
        .any(|t| t.label == '1' && t.next_state == 1));
    let total: usize = rev.states.iter().map(|s| s.transitions.len()).sum();
    assert_eq!(total, 6);
}

#[test]
fn determinize_tracks_sets_of_states() {
    // q0 -a-> q0, q0 -a-> q1, q0 -b-> q0, q1 -b-> q2 (final): words ending in "ab".
    let mut nfa = NFA::new(0);
    let q0 = nfa.add_state(true, false);
    let q1 = nfa.add_state(false, false);
    let q2 = nfa.add_state(false, true);
    nfa.add_transition(q0, "a".to_string(), q0);
    nfa.add_transition(q0, "a".to_string(), q1);
    nfa.add_transition(q0, "b".to_string(), q0);
    nfa.add_transition(q1, "b".to_string(), q2);

    let dfa = nfa.determinize();
    // {q0}, {q0, q1}, {q0, q2}
    assert_eq!(dfa.states, vec![0, 1, 2]);
    assert_eq!(dfa.initial, 0);
    assert_eq!(dfa.alphabet, vec!["a".to_string(), "b".to_string()]);
    assert_eq!(dfa.finals, vec![2]);
    let a = "a".to_string();
    let b = "b".to_string();
    assert!(dfa.accepts(&[a.clone(), b.clone()]));
    assert!(dfa.accepts(&[b.clone(), a.clone(), a.clone(), b.clone()]));
    assert!(!dfa.accepts(&[a.clone(), b.clone(), a.clone()]));
    assert!(!dfa.accepts(&[]));
}

#[test]
fn determinize_without_initial_state_rejects_everything() {
    let mut nfa = NFA::new(0);
    let q0 = nfa.add_state(false, true);
    nfa.add_transition(q0, "a".to_string(), q0);
    let dfa = nfa.determinize();
    assert_eq!(dfa.states, vec![0]);
    assert!(dfa.alphabet.is_empty());
    assert!(dfa.finals.is_empty());
    assert!(!dfa.accepts(&[]));
    assert!(!dfa.accepts(&["a".to_string()]));
}

