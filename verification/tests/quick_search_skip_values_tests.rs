use hyper_pattern_matching::automata::NFAH;
use hyper_pattern_matching::quick_search_skip_values::{QuickSearchSkipValues, VectorWithVer};

fn skip_value_automaton() -> NFAH {
    let mut automaton = NFAH::new(2);

    let s0 = automaton.add_state(true, false);
    let s1 = automaton.add_state(false, false);
    let s2 = automaton.add_state(false, false);
    let s3 = automaton.add_state(false, false);
    let sf = automaton.add_state(false, true);

    automaton.add_nfah_transition(s0, "c".to_string(), 0, s1);
    automaton.add_nfah_transition(s1, "c".to_string(), 1, s2);
    automaton.add_nfah_transition(s2, "a".to_string(), 0, s3);
    automaton.add_nfah_transition(s3, "b".to_string(), 1, s2);
    automaton.add_nfah_transition(s2, "c".to_string(), 0, sf);
    automaton
}

#[test]
fn quick_search_skip_values_test_skip_values() {
    let automaton = skip_value_automaton();

    let quick_search_skip_values = QuickSearchSkipValues::new(&automaton);
    assert_eq!(
        quick_search_skip_values.shortest_accepted_word_length_map,
        vec![2, 1]
    );
    assert_eq!(quick_search_skip_values.last_accepted_word[0].len(), 2);
    assert!(quick_search_skip_values.last_accepted_word[0].contains(&"a".to_string()));
    assert!(quick_search_skip_values.last_accepted_word[0].contains(&"c".to_string()));
    assert_eq!(quick_search_skip_values.last_accepted_word[1].len(), 1);
    assert!(quick_search_skip_values.last_accepted_word[1].contains(&"c".to_string()));

    assert_eq!(quick_search_skip_values.skip_value("a", 0), 1);
    assert_eq!(quick_search_skip_values.skip_value("b", 0), 3);
    assert_eq!(quick_search_skip_values.skip_value("c", 0), 1);
    assert_eq!(quick_search_skip_values.skip_value("a", 1), 2);
    assert_eq!(quick_search_skip_values.skip_value("b", 1), 2);
    assert_eq!(quick_search_skip_values.skip_value("c", 1), 1);
}

#[test]
fn projection_keeps_the_letters_of_one_variable() {
    let word: Vec<(String, usize)> = vec![
        ("a".to_string(), 0),
        ("b".to_string(), 1),
        ("c".to_string(), 0),
    ];
    assert_eq!(word.project(0), vec!["a".to_string(), "c".to_string()]);
    assert_eq!(word.project(1), vec!["b".to_string()]);
    assert!(word.project(2).is_empty());
}

#[test]
fn skip_values_stay_within_one_and_the_length_plus_one() {
    let automaton = skip_value_automaton();
    let values = QuickSearchSkipValues::new(&automaton);
    for var in 0..2 {
        let bound = values.shortest_accepted_word_length_map[var] + 1;
        for letter in ["a", "b", "c", "d"] {
            let v = values.skip_value(letter, var);
            assert!(1 <= v && v <= bound);
        }
    }
    // A letter that no accepted word reads gets the default skip.
    assert_eq!(values.skip_value("d", 0), 3);
    assert_eq!(values.skip_value("d", 1), 2);
}

#[test]
fn single_letter_word_skips() {
    let mut automaton = NFAH::new(1);
    let s0 = automaton.add_state(true, false);
    let s1 = automaton.add_state(false, true);
    automaton.add_nfah_transition(s0, "x".to_string(), 0, s1);
    let values = QuickSearchSkipValues::new(&automaton);
    assert_eq!(values.shortest_accepted_word_length_map, vec![1]);
    assert_eq!(values.last_accepted_word[0], vec!["x".to_string()]);
    assert_eq!(values.skip_value("x", 0), 1);
    assert_eq!(values.skip_value("y", 0), 2);
}
