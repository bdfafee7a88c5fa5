use hyper_pattern_matching::automata::NFAH;
use hyper_pattern_matching::serialization::{
    deserialize_nfa, is_well_numbered, serialize_nfa, to_dot, SerializedAutomata, SerializedState,
    SerializedTransition,
};

fn sample() -> NFAH {
    // s0 (initial), s1 (final), s2
    let mut automata = NFAH::new(2);
    let s0 = automata.add_state(true, false);
    let s1 = automata.add_state(false, true);
    let s2 = automata.add_state(false, false);
    automata.add_nfah_transition(s0, "a".to_string(), 0, s1);
    automata.add_nfah_transition(s0, "b".to_string(), 1, s2);
    automata.add_nfah_transition(s1, "c".to_string(), 0, s2);
    automata.add_nfah_transition(s2, "d".to_string(), 1, s0);
    automata
}

#[test]
fn test_serialize_deserialize() {
    let automata = sample();
    let serialized = serialize_nfa(&automata);
    assert!(is_well_numbered(&serialized));
    let deserialized = deserialize_nfa(&serialized);

    assert_eq!(automata.dimensions, deserialized.dimensions);
    // We expect 3 states.
    assert_eq!(deserialized.states.len(), 3);
    // We expect 4 transitions.
    let transitions: usize = deserialized.states.iter().map(|s| s.transitions.len()).sum();
    assert_eq!(transitions, 4);
}

#[test]
fn serialization_numbers_reachable_states_breadth_first() {
    let mut automata = NFAH::new(1);
    let s0 = automata.add_state(false, false);
    let s1 = automata.add_state(true, false);
    let unreachable = automata.add_state(false, true);
    automata.add_nfah_transition(s1, "x".to_string(), 0, s0);
    automata.add_nfah_transition(unreachable, "y".to_string(), 0, s1);
    let ser = serialize_nfa(&automata);
    assert_eq!(ser.states.len(), 2);
    assert_eq!(ser.states[0].id, 0);
    assert!(ser.states[0].is_initial);
    assert!(!ser.states[1].is_initial);
    assert_eq!(ser.transitions.len(), 1);
    assert_eq!(ser.transitions[0].from, 0);
    assert_eq!(ser.transitions[0].to, 1);
    assert_eq!(ser.transitions[0].label, ("x".to_string(), 0));
}

#[test]
fn deserialization_rejects_bad_numbers() {
    let bad_state = SerializedAutomata {
        dimensions: 1,
        states: vec![SerializedState { id: 3, is_initial: true, is_final: false }],
        transitions: vec![],
    };
    assert!(!is_well_numbered(&bad_state));

    let bad_target = SerializedAutomata {
        dimensions: 1,
        states: vec![SerializedState { id: 0, is_initial: true, is_final: true }],
        transitions: vec![SerializedTransition { from: 0, to: 1, label: ("a".to_string(), 0) }],
    };
    assert!(!is_well_numbered(&bad_target));

    let bad_variable = SerializedAutomata {
        dimensions: 1,
        states: vec![SerializedState { id: 0, is_initial: true, is_final: true }],
        transitions: vec![SerializedTransition { from: 0, to: 0, label: ("a".to_string(), 1) }],
    };
    assert!(!is_well_numbered(&bad_variable));
}

#[test]
fn deserialization_follows_the_state_numbers() {
    // The states are listed out of order: number 1 first, then number 0.
    let ser = SerializedAutomata {
        dimensions: 2,
        states: vec![
            SerializedState { id: 1, is_initial: false, is_final: true },
            SerializedState { id: 0, is_initial: true, is_final: false },
        ],
        transitions: vec![SerializedTransition { from: 0, to: 1, label: ("a".to_string(), 1) }],
    };
    assert!(is_well_numbered(&ser));
    let a = deserialize_nfa(&ser);
    assert_eq!(a.initial_states, vec![1]);
    assert!(a.states[0].is_final);
    assert_eq!(a.states[1].transitions.len(), 1);
    assert_eq!(a.states[1].transitions[0].next_state, 0);
    assert_eq!(a.states[1].transitions[0].label, ("a".to_string(), 1));
}

#[test]
fn dot_output_lists_nodes_and_edges() {
    let mut automata = NFAH::new(1);
    let s0 = automata.add_state(true, false);
    let s1 = automata.add_state(false, true);
    automata.add_nfah_transition(s0, "a".to_string(), 0, s1);
    let dot = to_dot(&automata);
    let expected = "digraph NFA {\n  rankdir=LR;\n  node [shape=circle];\n  __start__ [shape=point];\n  __start__ -> state0;\n  state0 [label=\"State 0\", shape=circle];\n  state1 [label=\"State 1\", shape=doublecircle];\n  state0 -> state1 [label=\"a/0\"];\n}\n";
    assert_eq!(dot, expected);
}

#[test]
fn round_trip_reads_back_the_reachable_part() {
    let mut automata = NFAH::new(1);
    let s0 = automata.add_state(false, false);
    let s1 = automata.add_state(true, false);
    let unreachable = automata.add_state(false, true);
    automata.add_nfah_transition(s1, "x".to_string(), 0, s0);
    automata.add_nfah_transition(s0, "y".to_string(), 0, s1);
    automata.add_nfah_transition(unreachable, "z".to_string(), 0, s1);
    let ser = serialize_nfa(&automata);
    assert!(is_well_numbered(&ser));
    let back = deserialize_nfa(&ser);
    // State 0 of the copy is s1 (the initial state), state 1 is s0.
    assert_eq!(back.states.len(), 2);
    assert_eq!(back.initial_states, vec![0]);
    assert!(!back.states[0].is_final);
    assert!(!back.states[1].is_final);
    assert_eq!(back.states[0].transitions.len(), 1);
    assert_eq!(back.states[0].transitions[0].label, ("x".to_string(), 0));
    assert_eq!(back.states[0].transitions[0].next_state, 1);
    assert_eq!(back.states[1].transitions.len(), 1);
    assert_eq!(back.states[1].transitions[0].label, ("y".to_string(), 0));
    assert_eq!(back.states[1].transitions[0].next_state, 0);
}
