use hyper_pattern_matching::automata::NFAH;
use hyper_pattern_matching::kmp_skip_values::KMPSkipValues;

#[test]
fn kmp_skip_values_test_skip_values() {
    let mut automaton = NFAH::new(2);

    let s0 = automaton.add_state(true, false);
    let s1 = automaton.add_state(false, false);
    let s2 = automaton.add_state(false, false);
    let s3 = automaton.add_state(false, false);
    let sf = automaton.add_state(false, true);

    automaton.add_nfah_transition(s0, "c".to_string(), 0, s1);
    automaton.add_nfah_transition(s1, "c".to_string(), 1, s2);
    automaton.add_nfah_transition(s2, "a".to_string(), 0, s3);
    automaton.add_nfah_transition(s3, "b".to_string(), 1, s2);
    automaton.add_nfah_transition(s2, "c".to_string(), 0, sf);

    let kmp_skip_values = KMPSkipValues::new(&automaton);
    assert_eq!(2, kmp_skip_values.skip_values.len());
    assert_eq!(0, kmp_skip_values.skip_values[0][s0]);
    assert_eq!(1, kmp_skip_values.skip_values[0][s1]);
    assert_eq!(1, kmp_skip_values.skip_values[0][s2]);
    assert_eq!(2, kmp_skip_values.skip_values[0][s3]);
    assert_eq!(1, kmp_skip_values.skip_values[0][sf]);
    assert_eq!(0, kmp_skip_values.skip_values[1][s0]);
    assert_eq!(0, kmp_skip_values.skip_values[1][s1]);
    assert_eq!(1, kmp_skip_values.skip_values[1][s2]);
    assert_eq!(1, kmp_skip_values.skip_values[1][s3]);
    assert_eq!(1, kmp_skip_values.skip_values[1][sf]);
}

#[test]
fn unreachable_state_gets_no_skip() {
    let mut automaton = NFAH::new(1);
    let s0 = automaton.add_state(true, false);
    let s1 = automaton.add_state(false, true);
    let lonely = automaton.add_state(false, false);
    automaton.add_nfah_transition(s0, "a".to_string(), 0, s1);
    let values = KMPSkipValues::new(&automaton);
    assert_eq!(values.skip_values[0].len(), 3);
    assert_eq!(values.skip_values[0][lonely], 0);
    assert_eq!(values.skip_values[0][s0], 0);
    assert_eq!(values.skip_values[0][s1], 1);
}
