# hyper_pattern_matching

Hyper pattern matching over several streams of log lines: an automaton
with one variable per stream position (an NFAH) describes a pattern over
tuples of streams, and the library reports every tuple of intervals, one
per variable, on which the automaton accepts.

The library is written in Verus; every function in `src/` carries a
contract proved by Verus.

## Layout

- `src/automata.rs`, `src/nfa.rs`, `src/nfah.rs`, `src/dfa.rs`,
  `src/dfa_minimization.rs`, `src/product.rs`: automata, their
  projections, determinization, minimization and products, with laws on
  the languages they accept.
- `src/hyper_pattern_matching.rs`, `src/naive_hyper_pattern_matching.rs`,
  `src/fjs_hyper_pattern_matching.rs`: the matchings. The naive one tries
  every start position in increasing order; the FJS one passes over start
  positions ruled out by KMP-style and Quick-Search skip values
  (`src/kmp_skip_values.rs`, `src/quick_search_skip_values.rs`).
- `src/filtered_*.rs`, `src/matching_filter.rs`,
  `src/dfa_earliest_pattern_matcher.rs`: the filtered matching, which first
  masks the elements of each stream that no match of a variable's
  projection covers.
- `src/sequence.rs`, `src/shared_buffer.rs`, `src/multi_stream_reader.rs`,
  `src/reading_scheduler.rs`, `src/result_notifier.rs`: streams, sources of
  lines, the loop that feeds them to a matching, and where results go.
- `src/serialization.rs`: the JSON-shaped form of an automaton and its DOT
  drawing.
- `app/`: the command-line program (argument handling, files, JSON, logging).
- `tests/`: tests on concrete values.
