//! Hyper pattern matching over multiple log streams, with the automata,
//! filters and matching procedures it is built from.

pub mod label;
pub mod sequence;
pub mod dfa;
pub mod dfa_earliest_pattern_matcher;
pub mod matching_filter;
pub mod automata;
pub mod hyper_pattern_matching;
pub mod start_position;
pub mod shared_buffer;
pub mod result_notifier;
pub mod naive_hyper_pattern_matching;
pub mod fjs_hyper_pattern_matching;
pub mod multi_stream_reader;
pub mod reading_scheduler;
pub mod quick_search_skip_values;
pub mod nfah;
pub mod nfa;
pub mod kmp_skip_values;
pub mod serialization;
pub mod dfa_minimization;
pub mod filtered_pattern_matching_automata_runner;
pub mod product;
pub mod filtered_single_hyper_pattern_matching;
pub mod filtered_hyper_pattern_matching;
pub mod automata_runner;
