use vstd::prelude::*;
use crate::automata::{Automata, EpsilonNFA, NFA};
use crate::dfa::DFA;
use crate::dfa_minimization::{is_subset_dfa, subset_step_ok};
use crate::nfa::is_powerset;
use crate::nfah::is_projection;
use crate::dfa_earliest_pattern_matcher::DFAEarliestPatternMatcher;
use crate::matching_filter::{MatchingFilter, filtered_at};
use crate::sequence::{AppendOnlySequence, ReadableView};
use crate::filtered_single_hyper_pattern_matching::{
    NaiveFilteredSingleHyperPatternMatching, all_sound, filtered_trial_derivable, position_skipped, trial_begins,
};
use crate::filtered_pattern_matching_automata_runner::{filtered_streams_of, filtered_derivable};
use crate::hyper_pattern_matching::{HyperPatternMatching, ConfigView, streams_of, starts_of, copy_positions};
use crate::naive_hyper_pattern_matching::{index_tuples, MatchingReport, report_of};
use crate::start_position::lex_less;
use crate::result_notifier::ResultNotifier;

verus! {

/// `d` is the pattern that the filters of variable `v` look for: the subset
/// automaton of the powerset automaton of the projection of `aut` on `v`.
pub open spec fn is_variable_pattern(aut: Automata<(String, usize)>, v: nat, d: DFA<usize, String>) -> bool {
    exists|e: EpsilonNFA, order: Seq<usize>, p: NFA, s1: Seq<Seq<bool>>, s2: Seq<Seq<bool>>|
        #![trigger is_projection(aut, v, None, e, order), is_powerset(e, p, s1), is_subset_dfa(p, d, s2)]
        is_projection(aut, v, None, e, order) && is_powerset(e, p, s1) && is_subset_dfa(p, d, s2)
}

/// A copy of the pattern of a variable is that pattern too.
proof fn lemma_pattern_copy(aut: Automata<(String, usize)>, v: nat, d1: DFA<usize, String>, d2: DFA<usize, String>)
    requires
        is_variable_pattern(aut, v, d1),
        d2.states_view() == d1.states_view(),
        d2.alphabet_view() == d1.alphabet_view(),
        d2.initial_view() == d1.initial_view(),
        d2.finals_view() == d1.finals_view(),
        d2.trans_view() == d1.trans_view(),
    ensures
        is_variable_pattern(aut, v, d2),
{
    let (e, order, p, s1, s2) = choose|e: EpsilonNFA, order: Seq<usize>, p: NFA, s1: Seq<Seq<bool>>, s2: Seq<Seq<bool>>|
        #![trigger is_projection(aut, v, None, e, order), is_powerset(e, p, s1), is_subset_dfa(p, d1, s2)]
        is_projection(aut, v, None, e, order) && is_powerset(e, p, s1) && is_subset_dfa(p, d1, s2);
    assert forall|i: int, x: Seq<char>| 0 <= i < s2.len() implies #[trigger] subset_step_ok(p, d2, s2, i, x) by {
        assert(subset_step_ok(p, d1, s2, i, x));
    }
    assert(is_subset_dfa(p, d2, s2));
}

/// The place of the filter of variable `v` on stream `t`, for `n` streams.
proof fn lemma_slot_bound(v: int, t: int, n: int, dims: int)
    by (nonlinear_arith)
    requires
        0 <= v < dims,
        0 <= t < n,
    ensures
        0 <= v * n + t < dims * n,
        v * n + n <= dims * n,
{
}

/// Different pairs of a variable and a stream have different places.
proof fn lemma_slot_unique(v1: int, t1: int, v2: int, t2: int, n: int)
    by (nonlinear_arith)
    requires
        0 <= v1,
        0 <= v2,
        0 <= t1 < n,
        0 <= t2 < n,
        v1 * n + t1 == v2 * n + t2,
    ensures
        v1 == v2,
        t1 == t2,
{
    if v1 < v2 {
        assert(v1 * n + n <= v2 * n);
    } else if v2 < v1 {
        assert(v2 * n + n <= v1 * n);
    }
}

/// The element of `s` at the place of variable `v` and stream `t`.
spec fn slot<T>(s: Seq<T>, n: int, v: int, t: int) -> T {
    s[v * n + t]
}

/// A filter as it is made: it has read nothing, output nothing, and looks
/// for the pattern of variable `v`.
spec fn fresh_filter(f: MatchingFilter<usize, String>, aut: Automata<(String, usize)>, v: int) -> bool {
    &&& f.inv()
    &&& f.consumed() == Seq::<Seq<char>>::empty()
    &&& f.output() == Seq::<Option<Seq<char>>>::empty()
    &&& !f.output_closed()
    &&& is_variable_pattern(aut, v as nat, f.pattern())
}

/// The hyper pattern matching with filters: each stream is first filtered,
/// for each variable, by the pattern that the projection of the automaton
/// on that variable accepts, and a naive matching runs over the filtered
/// streams for each tuple of streams. There are as many streams as
/// variables.
pub struct FilteredHyperPatternMatching<'a, Notifier: ResultNotifier + Clone> {
    automaton: &'a Automata<(String, usize)>,
    /// The filter of variable `v` on stream `t` stands at `v * n + t`, for
    /// `n` streams.
    filters: Vec<MatchingFilter<usize, String>>,
    /// One matching per tuple of streams.
    single_matchings: Vec<NaiveFilteredSingleHyperPatternMatching<'a, Notifier>>,
    /// The streams.
    sequences: Vec<AppendOnlySequence<String>>,
}

impl<'a, Notifier: ResultNotifier + Clone> FilteredHyperPatternMatching<'a, Notifier> {
    /// The automaton.
    pub closed spec fn automaton(&self) -> Automata<(String, usize)> {
        *self.automaton
    }

    /// The number of streams.
    pub closed spec fn num_tracks(&self) -> nat {
        self.sequences@.len()
    }

    /// The contents of the streams.
    pub closed spec fn streams(&self) -> Seq<Seq<Seq<char>>> {
        streams_of(self.sequences@)
    }

    /// The stream `t` has ended.
    pub closed spec fn is_eof(&self, t: int) -> bool {
        0 <= t < self.sequences@.len() && self.sequences@[t].is_closed_spec()
    }

    spec fn filter_at(&self, v: int, t: int) -> MatchingFilter<usize, String> {
        slot(self.filters@, self.sequences@.len() as int, v, t)
    }

    /// The pattern of the filter of variable `v` on stream `t`.
    pub closed spec fn filter_pattern(&self, v: int, t: int) -> DFA<usize, String> {
        self.filter_at(v, t).pattern()
    }

    /// What the filter of variable `v` on stream `t` has output.
    pub closed spec fn filter_output(&self, v: int, t: int) -> Seq<Option<Seq<char>>> {
        self.filter_at(v, t).output()
    }

    /// The number of tuples of streams, one matching each.
    pub closed spec fn num_singles(&self) -> nat {
        self.single_matchings@.len()
    }

    /// The `k`-th tuple: the stream of each variable.
    pub closed spec fn tuple(&self, k: int) -> Seq<usize> {
        self.single_matchings@[k].word_ids()
    }

    /// The matchings reported for the `k`-th tuple, in order.
    pub closed spec fn single_reported(&self, k: int) -> Seq<MatchingReport> {
        self.single_matchings@[k].reported()
    }

    /// The configurations of the matching of the `k`-th tuple.
    pub closed spec fn single_configs(&self, k: int) -> Seq<ConfigView> {
        self.single_matchings@[k].configs()
    }

    /// The start positions waiting in the matching of the `k`-th tuple.
    pub closed spec fn single_queue(&self, k: int) -> Seq<Seq<usize>> {
        self.single_matchings@[k].queue()
    }

    /// The views on the filtered streams of the matching of the `k`-th tuple.
    pub closed spec fn single_views(&self, k: int) -> Seq<ReadableView> {
        self.single_matchings@[k].input_views()
    }

    /// The matching of the `k`-th tuple has left the start position `p`,
    /// not masked, and a matching from `p` reaches the configuration `c` at
    /// a final state.
    pub open spec fn tried_since(&self, before: Self, k: int, p: Seq<usize>, c: ConfigView) -> bool {
        let ids = self.tuple(k);
        let streams = self.tuple_streams(ids);
        &&& before.single_queue(k).contains(p)
        &&& !self.single_queue(k).contains(p)
        &&& !position_skipped(streams, p)
        &&& filtered_trial_derivable(self.automaton(), streams, trial_begins(before.single_views(k), streams, p), ids, c)
        &&& self.automaton().final_at(c.0 as int)
    }

    /// The filtered streams read for the tuple `ids`: variable `i` reads
    /// stream `ids[i]` as filtered for `i`.
    pub open spec fn tuple_streams(&self, ids: Seq<usize>) -> Seq<Seq<Option<Seq<char>>>> {
        Seq::new(self.automaton().dimensions as nat, |i: int| self.filter_output(i, ids[i] as int))
    }

    /// The filter of `v` on `t` is consistent, has read a prefix of its
    /// stream, outputs the filtered stream of what it read, and looks for
    /// the pattern of `v`.
    spec fn filter_base(&self, v: int, t: int) -> bool {
        let f = self.filter_at(v, t);
        let items = self.sequences@[t].items_deep();
        &&& f.inv()
        &&& f.consumed().len() <= items.len()
        &&& items.take(f.consumed().len() as int) == f.consumed()
        &&& f.output_closed() ==> self.sequences@[t].is_closed_spec() && f.consumed().len() == items.len()
            && f.output().len() == f.consumed().len()
        &&& forall|j: int| 0 <= j < f.output().len() ==> #[trigger] f.output()[j] == filtered_at(f.pattern(), f.consumed(), j)
        &&& is_variable_pattern(*self.automaton, v as nat, f.pattern())
    }

    /// The filter of `v` on `t` has read all of its stream.
    spec fn filter_fed(&self, v: int, t: int) -> bool {
        self.filter_at(v, t).consumed() == self.sequences@[t].items_deep()
    }

    /// The shape and the filters are consistent.
    spec fn base_ok(&self) -> bool {
        let n = self.sequences@.len();
        let dims = self.automaton.dimensions;
        &&& self.automaton.wf()
        &&& n == dims
        &&& self.filters@.len() == dims * n
        &&& forall|v: int, t: int| 0 <= v < dims && 0 <= t < n ==> #[trigger] self.filter_base(v, t)
    }

    /// The matching of the `k`-th tuple is consistent and fits the filtered
    /// streams of its tuple.
    spec fn single_ok(&self, k: int) -> bool {
        let s = self.single_matchings@[k];
        &&& s.wf()
        &&& s.automaton() == *self.automaton
        &&& s.word_ids().len() == self.automaton.dimensions
        &&& forall|i: int| 0 <= i < self.automaton.dimensions ==> #[trigger] s.word_ids()[i] < self.sequences@.len()
        &&& s.fits_streams(self.tuple_streams(s.word_ids()))
    }

    spec fn singles_ok(&self) -> bool {
        forall|k: int| 0 <= k < self.single_matchings@.len() ==> #[trigger] self.single_ok(k)
    }

    /// The internal state is consistent.
    pub closed spec fn wf(&self) -> bool {
        &&& self.base_ok()
        &&& forall|v: int, t: int|
            0 <= v < self.automaton.dimensions && 0 <= t < self.sequences@.len() ==> #[trigger] self.filter_fed(v, t)
        &&& self.singles_ok()
    }

    /// Every filter looks for the pattern of its variable, and its output is
    /// the filtered stream of its stream.
    pub open spec fn filters_agree(&self) -> bool {
        &&& forall|v: int, t: int|
            0 <= v < self.automaton().dimensions && 0 <= t < self.num_tracks() ==> is_variable_pattern(
                self.automaton(),
                v as nat,
                #[trigger] self.filter_pattern(v, t),
            )
        &&& forall|v: int, t: int, j: int|
            0 <= v < self.automaton().dimensions && 0 <= t < self.num_tracks() && 0 <= j < self.filter_output(
                v,
                t,
            ).len() ==> #[trigger] self.filter_output(v, t)[j] == filtered_at(
                self.filter_pattern(v, t),
                self.streams()[t],
                j,
            )
    }

    /// The filters of every ended stream have output all of it.
    pub open spec fn filters_flushed(&self) -> bool {
        forall|v: int, t: int|
            0 <= v < self.automaton().dimensions && 0 <= t < self.num_tracks() && self.is_eof(t) ==> (
            #[trigger] self.filter_output(v, t)).len() == self.streams()[t].len()
    }

    /// What the matching of the `k`-th tuple reported since `before`.
    pub open spec fn new_reports(&self, before: Self, k: int) -> Seq<MatchingReport> {
        self.single_reported(k).subrange(before.single_reported(k).len() as int, self.single_reported(k).len() as int)
    }

    /// The tuples are those of `before`, each matching kept what it
    /// reported and reported since only sound matchings of its filtered
    /// streams, among them every matching at a final state that its
    /// configurations of `before` lead to.
    pub open spec fn runs_from(&self, before: Self) -> bool {
        &&& self.num_singles() == before.num_singles()
        &&& forall|k: int| 0 <= k < self.num_singles() ==> #[trigger] self.tuple(k) == before.tuple(k)
        &&& forall|k: int|
            0 <= k < self.num_singles() ==> before.single_reported(k).len() <= (#[trigger] self.single_reported(
                k,
            )).len() && self.single_reported(k).subrange(0, before.single_reported(k).len() as int)
                == before.single_reported(k)
        &&& forall|k: int|
            0 <= k < self.num_singles() ==> all_sound(
                self.automaton(),
                self.tuple_streams(self.tuple(k)),
                self.tuple(k),
                #[trigger] self.new_reports(before, k),
            )
        &&& forall|k: int, c: ConfigView|
            0 <= k < self.num_singles() && filtered_derivable(
                self.automaton(),
                self.tuple_streams(self.tuple(k)),
                before.single_configs(k),
                c,
            ) && self.automaton().final_at(c.0 as int) ==> #[trigger] self.new_reports(before, k).contains(
                report_of(c),
            )
        &&& forall|k: int, p: Seq<usize>, c: ConfigView|
            0 <= k < self.num_singles() && #[trigger] self.tried_since(before, k, p, c)
                ==> self.new_reports(before, k).contains(report_of(c))
        &&& forall|k: int|
            0 <= k < self.num_singles() ==> (#[trigger] self.single_configs(k)).len() > 0 || self.single_queue(k).len() == 0
                || self.automaton().initial_states@.len() == 0
    }
}

impl<'a, Notifier: ResultNotifier + Clone> FilteredHyperPatternMatching<'a, Notifier> {
    /// A matching for `automaton` over as many streams as it has variables,
    /// all empty: a filter per variable and stream, and a matching per tuple
    /// of streams, each notifying a copy of `notifier`.
    pub fn new(automaton: &'a Automata<(String, usize)>, notifier: Notifier) -> (r: Self)
        requires
            automaton.wf(),
        ensures
            r.wf(),
            r.automaton() == *automaton,
            r.num_tracks() == automaton.dimensions,
            r.streams() == Seq::new(automaton.dimensions as nat, |t: int| Seq::<Seq<char>>::empty()),
            forall|t: int| !#[trigger] r.is_eof(t),
            r.filters_agree(),
            forall|k: int| 0 <= k < r.num_singles() ==> #[trigger] r.single_reported(k) == Seq::<MatchingReport>::empty(),
            forall|k: int| 0 <= k < r.num_singles() ==> (#[trigger] r.tuple(k)).len() == automaton.dimensions,
            forall|k: int, i: int|
                0 <= k < r.num_singles() && 0 <= i < automaton.dimensions ==> #[trigger] r.tuple(k)[i] < r.num_tracks(),
            forall|x: Seq<usize>|
                x.len() == automaton.dimensions && (forall|i: int| 0 <= i < x.len() ==> #[trigger] x[i] < r.num_tracks())
                    ==> exists|k: int| 0 <= k < r.num_singles() && #[trigger] r.tuple(k) == x,
            forall|j: int, k: int| 0 <= j < k < r.num_singles() ==> lex_less(r.tuple(j), r.tuple(k)),
            forall|k: int, c: ConfigView|
                0 <= k < r.num_singles() ==> (#[trigger] r.single_configs(k).contains(c) <==> exists|i: int|
                    0 <= i < automaton.initial_states@.len() && c == (
                        #[trigger] automaton.initial_states@[i],
                        Seq::new(automaton.dimensions as nat, |m: int| 0usize),
                        Seq::new(automaton.dimensions as nat, |m: int| 0usize),
                        r.tuple(k),
                    )),
    {
        let dims = automaton.dimensions;
        let n = dims;
        let ghost aut = *automaton;
        let mut sequences: Vec<AppendOnlySequence<String>> = Vec::new();
        for t in 0..n
            invariant
                sequences@.len() == t,
                forall|j: int| 0 <= j < t ==> (#[trigger] sequences@[j]).items() == Seq::<String>::empty()
                    && !sequences@[j].is_closed_spec(),
        {
            sequences.push(AppendOnlySequence::new());
        }
        let mut dfas: Vec<DFA<usize, String>> = Vec::new();
        for v in 0..dims
            invariant
                aut == *automaton,
                automaton.wf(),
                dims == automaton.dimensions,
                dfas@.len() == v,
                forall|j: int| 0 <= j < v ==> is_variable_pattern(aut, j as nat, #[trigger] dfas@[j]),
        {
            let e = automaton.project(v);
            let ghost order = choose|order: Seq<usize>| #[trigger] is_projection(aut, v as nat, None, e, order);
            let p = e.to_nfa_powerset();
            let ghost s1 = choose|s1: Seq<Seq<bool>>| #[trigger] is_powerset(e, p, s1);
            let d = p.determinize();
            proof {
                let s2 = choose|s2: Seq<Seq<bool>>| #[trigger] is_subset_dfa(p, d, s2);
                assert(is_projection(aut, v as nat, None, e, order) && is_powerset(e, p, s1) && is_subset_dfa(p, d, s2));
            }
            dfas.push(d);
        }
        let mut filters: Vec<MatchingFilter<usize, String>> = Vec::new();
        proof {
            assert(0 * (n as int) == 0) by (nonlinear_arith);
        }
        for v in 0..dims
            invariant
                aut == *automaton,
                n == dims,
                dfas@.len() == dims,
                sequences@.len() == n,
                forall|j: int| 0 <= j < dims ==> is_variable_pattern(aut, j as nat, #[trigger] dfas@[j]),
                filters@.len() == v * n,
                forall|w: int, t: int|
                    0 <= w < v && 0 <= t < n ==> fresh_filter(#[trigger] slot(filters@, n as int, w, t), aut, w),
        {
            for t in 0..n
                invariant
                    aut == *automaton,
                    n == dims,
                    v < dims,
                    dfas@.len() == dims,
                    sequences@.len() == n,
                    forall|j: int| 0 <= j < dims ==> is_variable_pattern(aut, j as nat, #[trigger] dfas@[j]),
                    filters@.len() == v * n + t,
                    forall|w: int, u: int|
                        0 <= w < v && 0 <= u < n ==> fresh_filter(#[trigger] slot(filters@, n as int, w, u), aut, w),
                    forall|u: int| 0 <= u < t ==> fresh_filter(#[trigger] slot(filters@, n as int, v as int, u), aut, v as int),
            {
                let d = dfas[v].duplicate();
                proof {
                    lemma_pattern_copy(aut, v as nat, dfas@[v as int], d);
                    assert(d.wf());
                }
                let matcher = DFAEarliestPatternMatcher::new(d);
                let f = MatchingFilter::new(matcher, sequences[t].readable_view());
                let ghost before = filters@;
                filters.push(f);
                proof {
                    assert forall|w: int, u: int| 0 <= w < v && 0 <= u < n implies fresh_filter(
                        #[trigger] slot(filters@, n as int, w, u), aut, w) by {
                        lemma_slot_bound(w, u, n as int, v as int);
                        assert(slot(filters@, n as int, w, u) == slot(before, n as int, w, u));
                    }
                    assert forall|u: int| 0 <= u < t + 1 implies fresh_filter(
                        #[trigger] slot(filters@, n as int, v as int, u), aut, v as int) by {
                        if u < t {
                            assert(slot(filters@, n as int, v as int, u) == slot(before, n as int, v as int, u));
                        } else {
                            assert(slot(filters@, n as int, v as int, u) == f);
                        }
                    }
                }
            }
            proof {
                assert(filters@.len() == (v + 1) * n) by (nonlinear_arith)
                    requires filters@.len() == v * n + n;
            }
        }
        let total = filters.len();
        let tuples = index_tuples(n, dims);
        let mut single_matchings: Vec<NaiveFilteredSingleHyperPatternMatching<'a, Notifier>> = Vec::new();
        for k in 0..tuples.len()
            invariant
                aut == *automaton,
                automaton.wf(),
                n == dims,
                dims == automaton.dimensions,
                sequences@.len() == n,
                filters@.len() == dims * n,
                total == dims * n,
                forall|w: int, t: int|
                    0 <= w < dims && 0 <= t < n ==> fresh_filter(#[trigger] slot(filters@, n as int, w, t), aut, w),
                forall|j: int| 0 <= j < tuples@.len() ==> (#[trigger] tuples@[j])@.len() == dims,
                forall|j: int, i: int| 0 <= j < tuples@.len() && 0 <= i < dims ==> #[trigger] tuples@[j]@[i] < n,
                single_matchings@.len() == k,
                forall|j: int| 0 <= j < k ==> {
                    &&& (#[trigger] single_matchings@[j]).wf()
                    &&& single_matchings@[j].automaton() == aut
                    &&& single_matchings@[j].word_ids() == tuples@[j]@
                    &&& single_matchings@[j].reported() == Seq::<MatchingReport>::empty()
                    &&& forall|st: Seq<Seq<Option<Seq<char>>>>| st.len() == dims ==> #[trigger] single_matchings@[j].fits_streams(st)
                    &&& forall|c: ConfigView| #[trigger] single_matchings@[j].configs().contains(c) <==> exists|i: int|
                        0 <= i < aut.initial_states@.len() && c == (
                            #[trigger] aut.initial_states@[i],
                            Seq::new(dims as nat, |m: int| 0usize),
                            Seq::new(dims as nat, |m: int| 0usize),
                            tuples@[j]@,
                        )
                },
        {
            let mut input_streams: Vec<ReadableView> = Vec::new();
            for i in 0..dims
                invariant
                    n == dims,
                    k < tuples@.len(),
                    filters@.len() == dims * n,
                    total == dims * n,
                    tuples@[k as int]@.len() == dims,
                    forall|i: int| 0 <= i < dims ==> #[trigger] tuples@[k as int]@[i] < n,
                    input_streams@.len() == i,
                    forall|m: int| 0 <= m < i ==> (#[trigger] input_streams@[m]).start == 0,
            {
                proof {
                    lemma_slot_bound(i as int, tuples@[k as int]@[i as int] as int, n as int, dims as int);
                }
                let place = i * n + tuples[k][i];
                input_streams.push(filters[place].readable_view());
            }
            let ghost views = input_streams@;
            proof {
                assert(starts_of(views) =~= Seq::new(dims as nat, |m: int| 0usize));
            }
            let ids = copy_positions(&tuples[k]);
            let single = NaiveFilteredSingleHyperPatternMatching::new(automaton, notifier.clone(), input_streams, ids);
            proof {
                assert forall|st: Seq<Seq<Option<Seq<char>>>>| st.len() == dims implies #[trigger] single.fits_streams(st) by {
                    assert forall|i: int| 0 <= i < st.len() implies views[i].start <= #[trigger] st[i].len() by {}
                }
            }
            single_matchings.push(single);
        }
        let r = Self { automaton, filters, single_matchings, sequences };
        proof {
            assert forall|t: int| 0 <= t < n implies #[trigger] r.sequences@[t].items_deep() == Seq::<Seq<char>>::empty() by {
                assert(r.sequences@[t].items_deep() =~= Seq::<Seq<char>>::empty());
            }
            assert forall|v: int, t: int| 0 <= v < dims && 0 <= t < n implies #[trigger] r.filter_base(v, t) by {
                assert(fresh_filter(slot(r.filters@, n as int, v, t), aut, v));
                assert(r.sequences@[t].items_deep().take(0) =~= Seq::<Seq<char>>::empty());
            }
            assert forall|v: int, t: int| 0 <= v < dims && 0 <= t < n implies #[trigger] r.filter_fed(v, t) by {
                assert(fresh_filter(slot(r.filters@, n as int, v, t), aut, v));
            }
            assert forall|k: int| 0 <= k < r.single_matchings@.len() implies #[trigger] r.single_ok(k) by {
                assert(r.single_matchings@[k].fits_streams(r.tuple_streams(r.single_matchings@[k].word_ids())));
            }
            assert(r.streams() =~= Seq::new(dims as nat, |t: int| Seq::<Seq<char>>::empty()));
            assert forall|v: int, t: int| 0 <= v < dims && 0 <= t < n implies is_variable_pattern(
                aut, v as nat, #[trigger] r.filter_pattern(v, t)) by {
                assert(fresh_filter(slot(r.filters@, n as int, v, t), aut, v));
            }
            assert forall|v: int, t: int, j: int| 0 <= v < dims && 0 <= t < n && 0 <= j < r.filter_output(v, t).len()
                implies #[trigger] r.filter_output(v, t)[j] == filtered_at(r.filter_pattern(v, t), r.streams()[t], j) by {
                assert(fresh_filter(slot(r.filters@, n as int, v, t), aut, v));
            }
            assert forall|x: Seq<usize>|
                x.len() == dims && (forall|i: int| 0 <= i < x.len() ==> #[trigger] x[i] < n)
                    implies exists|k: int| 0 <= k < r.num_singles() && #[trigger] r.tuple(k) == x by {
                let k = choose|k: int| 0 <= k < tuples@.len() && (#[trigger] tuples@[k])@ == x;
                assert(r.tuple(k) == x);
            }
        }
        r
    }
}

/// `a` begins with `b` and `c` with `a`, so `c` begins with `b`.
proof fn lemma_prefix_trans<T>(a: Seq<T>, b: Seq<T>, c: Seq<T>)
    requires
        b.len() <= a.len(),
        a.take(b.len() as int) == b,
        a.len() <= c.len(),
        c.take(a.len() as int) == a,
    ensures
        b.len() <= c.len(),
        c.take(b.len() as int) == b,
{
    assert(c.take(b.len() as int) =~= c.take(a.len() as int).take(b.len() as int));
}

/// The streams that the tuple of `single` reads: variable `i` reads the
/// output of the filter of `i` on the stream of `i` in the tuple.
fn tuple_outputs<'b, 'c, N: ResultNotifier>(
    filters: &'b Vec<MatchingFilter<usize, String>>,
    single: &NaiveFilteredSingleHyperPatternMatching<'c, N>,
    n: usize,
    dims: usize,
) -> (r: Vec<&'b AppendOnlySequence<Option<String>>>)
    requires
        filters@.len() == dims * n,
        single.word_ids().len() == dims,
        forall|i: int| 0 <= i < dims ==> #[trigger] single.word_ids()[i] < n,
        forall|i: int| 0 <= i < dims ==> (#[trigger] slot(filters@, n as int, i, single.word_ids()[i] as int)).inv(),
    ensures
        r@.len() == dims,
        forall|i: int| 0 <= i < dims ==> (#[trigger] r@[i]).items_deep() == slot(
            filters@,
            n as int,
            i,
            single.word_ids()[i] as int,
        ).output(),
{
    let total = filters.len();
    let mut r: Vec<&'b AppendOnlySequence<Option<String>>> = Vec::new();
    for i in 0..dims
        invariant
            total == dims * n,
            filters@.len() == dims * n,
            single.word_ids().len() == dims,
            forall|i: int| 0 <= i < dims ==> #[trigger] single.word_ids()[i] < n,
            forall|i: int| 0 <= i < dims ==> (#[trigger] slot(filters@, n as int, i, single.word_ids()[i] as int)).inv(),
            r@.len() == i,
            forall|m: int| 0 <= m < i ==> (#[trigger] r@[m]).items_deep() == slot(
                filters@,
                n as int,
                m,
                single.word_ids()[m] as int,
            ).output(),
    {
        let id = match single.get_id(i) {
            Some(x) => x,
            None => 0,
        };
        proof {
            lemma_slot_bound(i as int, id as int, n as int, dims as int);
            assert(slot(filters@, n as int, i as int, id as int).inv());
        }
        r.push(filters[i * n + id].output_stream());
    }
    r
}

impl<'a, Notifier: ResultNotifier + Clone> FilteredHyperPatternMatching<'a, Notifier> {
    /// The streams, the matchings and the patterns are those of `before`,
    /// and the output of every filter begins with its output in `before`.
    spec fn grew_from(&self, before: Self) -> bool {
        let n = self.sequences@.len();
        let dims = self.automaton.dimensions;
        &&& self.automaton == before.automaton
        &&& self.sequences@ == before.sequences@
        &&& self.single_matchings@ == before.single_matchings@
        &&& self.filters@.len() == before.filters@.len()
        &&& forall|v: int, t: int|
            0 <= v < dims && 0 <= t < n ==> before.filter_output(v, t).len() <= (#[trigger] self.filter_output(
                v,
                t,
            )).len() && self.filter_output(v, t).take(before.filter_output(v, t).len() as int)
                == before.filter_output(v, t) && self.filter_pattern(v, t) == before.filter_pattern(v, t)
    }

    proof fn lemma_grew_trans(&self, mid: Self, before: Self)
        requires
            mid.grew_from(before),
            self.grew_from(mid),
        ensures
            self.grew_from(before),
    {
        assert forall|v: int, t: int|
            0 <= v < self.automaton.dimensions && 0 <= t < self.sequences@.len() implies before.filter_output(v, t).len()
                <= (#[trigger] self.filter_output(v, t)).len() && self.filter_output(v, t).take(
                before.filter_output(v, t).len() as int,
            ) == before.filter_output(v, t) && self.filter_pattern(v, t) == before.filter_pattern(v, t) by {
            assert(mid.filter_output(v, t).len() <= self.filter_output(v, t).len());
            lemma_prefix_trans(mid.filter_output(v, t), before.filter_output(v, t), self.filter_output(v, t));
        }
    }

    proof fn lemma_grew_refl(&self)
        ensures
            self.grew_from(*self),
    {
        assert forall|v: int, t: int|
            0 <= v < self.automaton.dimensions && 0 <= t < self.sequences@.len() implies self.filter_output(v, t).len()
                <= (#[trigger] self.filter_output(v, t)).len() && self.filter_output(v, t).take(
                self.filter_output(v, t).len() as int,
            ) == self.filter_output(v, t) && self.filter_pattern(v, t) == self.filter_pattern(v, t) by {
            assert(self.filter_output(v, t).take(self.filter_output(v, t).len() as int) =~= self.filter_output(v, t));
        }
    }

    /// Runs from a state with the matchings of `before` are runs from `before`.
    proof fn lemma_runs_from_same(&self, mid: Self, before: Self)
        requires
            self.runs_from(mid),
            mid.single_matchings@ == before.single_matchings@,
        ensures
            self.runs_from(before),
    {
        assert forall|k: int| 0 <= k < self.num_singles() implies #[trigger] self.new_reports(before, k) == self.new_reports(mid, k)
            && before.single_reported(k) == mid.single_reported(k) && before.single_configs(k) == mid.single_configs(k)
            && before.tuple(k) == mid.tuple(k) by {
            assert(before.single_matchings@[k] == mid.single_matchings@[k]);
        }
        assert forall|k: int| 0 <= k < self.num_singles() implies #[trigger] self.tuple(k) == before.tuple(k) by {
            assert(self.new_reports(before, k) == self.new_reports(mid, k));
        }
        assert forall|k: int|
            0 <= k < self.num_singles() implies before.single_reported(k).len() <= (#[trigger] self.single_reported(
                k,
            )).len() && self.single_reported(k).subrange(0, before.single_reported(k).len() as int)
                == before.single_reported(k) by {
            assert(self.new_reports(before, k) == self.new_reports(mid, k));
        }
        assert forall|k: int|
            0 <= k < self.num_singles() implies all_sound(
                self.automaton(),
                self.tuple_streams(self.tuple(k)),
                self.tuple(k),
                #[trigger] self.new_reports(before, k),
            ) by {
            assert(self.new_reports(before, k) == self.new_reports(mid, k));
        }
        assert forall|k: int, c: ConfigView|
            0 <= k < self.num_singles() && filtered_derivable(
                self.automaton(),
                self.tuple_streams(self.tuple(k)),
                before.single_configs(k),
                c,
            ) && self.automaton().final_at(c.0 as int) implies #[trigger] self.new_reports(before, k).contains(
                report_of(c),
            ) by {
            assert(self.new_reports(before, k) == self.new_reports(mid, k));
        }
        assert forall|k: int, p: Seq<usize>, c: ConfigView|
            0 <= k < self.num_singles() && #[trigger] self.tried_since(before, k, p, c)
            implies self.new_reports(before, k).contains(report_of(c)) by {
            assert(self.new_reports(before, k) == self.new_reports(mid, k));
            assert(before.single_matchings@[k] == mid.single_matchings@[k]);
            assert(self.tried_since(mid, k, p, c));
        }
    }

    /// Matchings that fit the filtered streams still fit them once the
    /// filters have output more.
    proof fn lemma_singles_still_fit(&self, before: Self)
        requires
            before.base_ok(),
            before.singles_ok(),
            self.grew_from(before),
        ensures
            self.singles_ok(),
    {
        assert forall|k: int| 0 <= k < self.single_matchings@.len() implies #[trigger] self.single_ok(k) by {
            assert(before.single_ok(k));
            let s = self.single_matchings@[k];
            let ids = s.word_ids();
            let st1 = before.tuple_streams(ids);
            let st2 = self.tuple_streams(ids);
            assert forall|i: int| 0 <= i < st1.len() implies #[trigger] st1[i].len() <= st2[i].len() by {
                assert(before.filter_output(i, ids[i] as int).len() <= self.filter_output(i, ids[i] as int).len());
            }
            s.lemma_fits_grow(st1, st2);
        }
    }

    /// Reads what is new in stream `t` with the filter of variable `v`.
    fn run_filter(&mut self, v: usize, t: usize)
        requires
            old(self).base_ok(),
            old(self).singles_ok(),
            v < old(self).automaton.dimensions,
            t < old(self).sequences@.len(),
        ensures
            final(self).base_ok(),
            final(self).singles_ok(),
            final(self).grew_from(*old(self)),
            final(self).filter_fed(v as int, t as int),
            final(self).sequences@[t as int].is_closed_spec() ==> final(self).filter_at(v as int, t as int).output_closed(),
            forall|w: int, u: int|
                0 <= w < final(self).automaton.dimensions && 0 <= u < final(self).sequences@.len() && !(w == v && u
                    == t) ==> #[trigger] final(self).filter_at(w, u) == old(self).filter_at(w, u),
    {
        let ghost before = *self;
        let n = self.sequences.len();
        let total = self.filters.len();
        proof {
            lemma_slot_bound(v as int, t as int, n as int, self.automaton.dimensions as int);
            assert(self.filter_base(v as int, t as int));
        }
        let place = v * n + t;
        self.filters[place].consume_input(&self.sequences[t]);
        proof {
            assert forall|w: int, u: int|
                0 <= w < self.automaton.dimensions && 0 <= u < n && !(w == v && u == t) implies #[trigger] self.filter_at(
                    w,
                    u,
                ) == before.filter_at(w, u) by {
                lemma_slot_bound(w, u, n as int, self.automaton.dimensions as int);
                if w * n + u == place {
                    lemma_slot_unique(w, u, v as int, t as int, n as int);
                }
            }
            assert forall|w: int, u: int| 0 <= w < self.automaton.dimensions && 0 <= u < n implies #[trigger] self.filter_base(w, u) by {
                assert(before.filter_base(w, u));
                if w == v && u == t {
                    assert(self.sequences@[u].items_deep().take(self.sequences@[u].items_deep().len() as int)
                        =~= self.sequences@[u].items_deep());
                }
            }
            assert forall|w: int, u: int|
                0 <= w < self.automaton.dimensions && 0 <= u < n implies before.filter_output(w, u).len()
                    <= (#[trigger] self.filter_output(w, u)).len() && self.filter_output(w, u).take(
                    before.filter_output(w, u).len() as int,
                ) == before.filter_output(w, u) && self.filter_pattern(w, u) == before.filter_pattern(w, u) by {
                if !(w == v && u == t) {
                    assert(self.filter_at(w, u) == before.filter_at(w, u));
                    assert(self.filter_output(w, u).take(self.filter_output(w, u).len() as int) =~= self.filter_output(w, u));
                }
            }
            assert(self.sequences@ == before.sequences@);
            assert(self.single_matchings@ == before.single_matchings@);
            assert(self.grew_from(before));
            self.lemma_singles_still_fit(before);
        }
    }

    /// Closes the output of the filter of variable `v` on stream `t` if the
    /// stream has ended.
    fn close_filter(&mut self, v: usize, t: usize)
        requires
            old(self).base_ok(),
            old(self).singles_ok(),
            v < old(self).automaton.dimensions,
            t < old(self).sequences@.len(),
            old(self).filter_fed(v as int, t as int),
        ensures
            final(self).base_ok(),
            final(self).singles_ok(),
            final(self).grew_from(*old(self)),
            final(self).filter_fed(v as int, t as int),
            final(self).sequences@[t as int].is_closed_spec() ==> final(self).filter_at(v as int, t as int).output_closed(),
            forall|w: int, u: int|
                0 <= w < final(self).automaton.dimensions && 0 <= u < final(self).sequences@.len() && !(w == v && u
                    == t) ==> #[trigger] final(self).filter_at(w, u) == old(self).filter_at(w, u),
    {
        let ghost before = *self;
        let n = self.sequences.len();
        let total = self.filters.len();
        proof {
            lemma_slot_bound(v as int, t as int, n as int, self.automaton.dimensions as int);
            assert(self.filter_base(v as int, t as int));
        }
        let place = v * n + t;
        self.filters[place].check_closed(&self.sequences[t]);
        proof {
            assert forall|w: int, u: int|
                0 <= w < self.automaton.dimensions && 0 <= u < n && !(w == v && u == t) implies #[trigger] self.filter_at(
                    w,
                    u,
                ) == before.filter_at(w, u) by {
                lemma_slot_bound(w, u, n as int, self.automaton.dimensions as int);
                if w * n + u == place {
                    lemma_slot_unique(w, u, v as int, t as int, n as int);
                }
            }
            assert forall|w: int, u: int| 0 <= w < self.automaton.dimensions && 0 <= u < n implies #[trigger] self.filter_base(w, u) by {
                assert(before.filter_base(w, u));
            }
            assert forall|w: int, u: int|
                0 <= w < self.automaton.dimensions && 0 <= u < n implies before.filter_output(w, u).len()
                    <= (#[trigger] self.filter_output(w, u)).len() && self.filter_output(w, u).take(
                    before.filter_output(w, u).len() as int,
                ) == before.filter_output(w, u) && self.filter_pattern(w, u) == before.filter_pattern(w, u) by {
                if !(w == v && u == t) {
                    assert(self.filter_at(w, u) == before.filter_at(w, u));
                    assert(self.filter_output(w, u).take(self.filter_output(w, u).len() as int) =~= self.filter_output(w, u));
                }
            }
            assert(self.sequences@ == before.sequences@);
            assert(self.single_matchings@ == before.single_matchings@);
            assert(self.grew_from(before));
            self.lemma_singles_still_fit(before);
        }
    }
}

impl<'a, Notifier: ResultNotifier + Clone> FilteredHyperPatternMatching<'a, Notifier> {
    /// The matching of the `k`-th tuple ran since `before` as `runs_from`
    /// says.
    spec fn single_done(&self, before: Self, k: int) -> bool {
        let ids = self.tuple(k);
        &&& ids == before.tuple(k)
        &&& before.single_reported(k).len() <= self.single_reported(k).len()
        &&& self.single_reported(k).subrange(0, before.single_reported(k).len() as int) == before.single_reported(k)
        &&& all_sound(self.automaton(), self.tuple_streams(ids), ids, self.new_reports(before, k))
        &&& forall|c: ConfigView|
            filtered_derivable(self.automaton(), self.tuple_streams(ids), before.single_configs(k), c)
                && self.automaton().final_at(c.0 as int) ==> #[trigger] self.new_reports(before, k).contains(report_of(c))
        &&& forall|p: Seq<usize>, c: ConfigView|
            #[trigger] self.tried_since(before, k, p, c) ==> self.new_reports(before, k).contains(report_of(c))
        &&& self.single_configs(k).len() > 0 || self.single_queue(k).len() == 0 || self.automaton().initial_states@.len() == 0
    }

    /// Runs the matching of every tuple, in order, over the filtered streams.
    fn run_singles(&mut self)
        requires
            old(self).base_ok(),
            old(self).singles_ok(),
        ensures
            final(self).base_ok(),
            final(self).singles_ok(),
            final(self).automaton == old(self).automaton,
            final(self).sequences@ == old(self).sequences@,
            final(self).filters@ == old(self).filters@,
            final(self).runs_from(*old(self)),
    {
        let ghost before = *self;
        let n = self.sequences.len();
        let dims = self.automaton.dimensions;
        let count = self.single_matchings.len();
        for k in 0..count
            invariant
                self.base_ok(),
                self.singles_ok(),
                n == self.sequences@.len(),
                dims == self.automaton.dimensions,
                count == self.single_matchings@.len(),
                self.automaton == before.automaton,
                self.sequences@ == before.sequences@,
                self.filters@ == before.filters@,
                before.single_matchings@.len() == count,
                forall|j: int| k <= j < count ==> #[trigger] self.single_matchings@[j] == before.single_matchings@[j],
                forall|j: int| 0 <= j < k ==> #[trigger] self.single_done(before, j),
        {
            let ghost cur = *self;
            let ghost ids = self.single_matchings@[k as int].word_ids();
            proof {
                assert(self.single_ok(k as int));
                assert forall|i: int| 0 <= i < dims implies (#[trigger] slot(self.filters@, n as int, i, ids[i] as int)).inv() by {
                    assert(self.filter_base(i, ids[i] as int));
                }
            }
            let refs = tuple_outputs(&self.filters, &self.single_matchings[k], n, dims);
            proof {
                assert(filtered_streams_of(refs@) =~= self.tuple_streams(ids));
            }
            self.single_matchings[k].consume_input(&refs);
            proof {
                assert(filtered_streams_of(refs@) =~= self.tuple_streams(ids));
                let s = self.single_matchings@[k as int];
                assert(s.wf());
                assert(s.automaton() == cur.single_matchings@[k as int].automaton());
                assert(s.word_ids() == ids);
                assert(s.fits(refs@));
                assert(self.filters@ == cur.filters@);
                assert(self.tuple_streams(ids) == cur.tuple_streams(ids));
                assert(s.fits_streams(self.tuple_streams(ids)));
                assert(self.single_ok(k as int));
                assert forall|j: int| 0 <= j < count implies #[trigger] self.single_ok(j) by {
                    if j != k {
                        assert(self.single_matchings@[j] == cur.single_matchings@[j]);
                        assert(cur.single_ok(j));
                        let sj = self.single_matchings@[j];
                        assert(sj.wf());
                        assert(sj.fits_streams(cur.tuple_streams(sj.word_ids())));
                        assert(self.tuple_streams(sj.word_ids()) == cur.tuple_streams(sj.word_ids()));
                    } else {
                        assert(self.single_ok(k as int));
                    }
                }
                assert forall|v: int, t: int| 0 <= v < dims && 0 <= t < n implies #[trigger] self.filter_base(v, t) by {
                    assert(cur.filter_base(v, t));
                }
                assert(cur.single_matchings@[k as int] == before.single_matchings@[k as int]);
                assert(self.new_reports(before, k as int) == s.reported().subrange(
                    cur.single_matchings@[k as int].reported().len() as int,
                    s.reported().len() as int,
                ));
                assert forall|p: Seq<usize>, c: ConfigView| #[trigger] self.tried_since(before, k as int, p, c)
                    implies self.new_reports(before, k as int).contains(report_of(c)) by {
                    assert(self.single_queue(k as int) == s.queue());
                    assert(before.single_queue(k as int) == cur.single_matchings@[k as int].queue());
                    assert(before.single_views(k as int) == cur.single_matchings@[k as int].input_views());
                }
                assert(self.single_done(before, k as int));
                assert forall|j: int| 0 <= j < k + 1 implies #[trigger] self.single_done(before, j) by {
                    if j < k {
                        assert(self.single_matchings@[j] == cur.single_matchings@[j]);
                        assert(cur.single_done(before, j));
                        assert(self.tuple_streams(self.tuple(j)) == cur.tuple_streams(cur.tuple(j)));
                        assert(self.new_reports(before, j) == cur.new_reports(before, j));
                        assert forall|p: Seq<usize>, c: ConfigView| #[trigger] self.tried_since(before, j, p, c)
                            implies self.new_reports(before, j).contains(report_of(c)) by {
                            assert(cur.tried_since(before, j, p, c));
                        }
                    } else {
                        assert(self.single_done(before, k as int));
                    }
                }
                assert forall|j: int| k + 1 <= j < count implies #[trigger] self.single_matchings@[j] == before.single_matchings@[j] by {
                    assert(self.single_matchings@[j] == cur.single_matchings@[j]);
                }
            }
        }
        proof {
            assert forall|k: int| 0 <= k < self.num_singles() implies #[trigger] self.tuple(k) == before.tuple(k) by {
                assert(self.single_done(before, k));
            }
            assert forall|k: int| 0 <= k < self.num_singles() implies before.single_reported(k).len() <= (
            #[trigger] self.single_reported(k)).len() && self.single_reported(k).subrange(
                0,
                before.single_reported(k).len() as int,
            ) == before.single_reported(k) by {
                assert(self.single_done(before, k));
            }
            assert forall|k: int| 0 <= k < self.num_singles() implies all_sound(
                self.automaton(),
                self.tuple_streams(self.tuple(k)),
                self.tuple(k),
                #[trigger] self.new_reports(before, k),
            ) by {
                assert(self.single_done(before, k));
            }
            assert forall|k: int, c: ConfigView|
                0 <= k < self.num_singles() && filtered_derivable(
                    self.automaton(),
                    self.tuple_streams(self.tuple(k)),
                    before.single_configs(k),
                    c,
                ) && self.automaton().final_at(c.0 as int) implies #[trigger] self.new_reports(before, k).contains(
                report_of(c),
            ) by {
                assert(self.single_done(before, k));
            }
            assert forall|k: int, p: Seq<usize>, c: ConfigView|
                0 <= k < self.num_singles() && #[trigger] self.tried_since(before, k, p, c)
                implies self.new_reports(before, k).contains(report_of(c)) by {
                assert(self.single_done(before, k));
            }
            assert forall|k: int| 0 <= k < self.num_singles() implies (#[trigger] self.single_configs(k)).len() > 0
                || self.single_queue(k).len() == 0 || self.automaton().initial_states@.len() == 0 by {
                assert(self.single_done(before, k));
            }
        }
    }
}

impl<'a, Notifier: ResultNotifier + Clone> FilteredHyperPatternMatching<'a, Notifier> {
    /// Every filter looks for the pattern it looked for in `before`.
    pub open spec fn same_patterns(&self, before: Self) -> bool {
        forall|v: int, t: int|
            0 <= v < self.automaton().dimensions && 0 <= t < self.num_tracks() ==> #[trigger] self.filter_pattern(v, t)
                == before.filter_pattern(v, t)
    }

    /// All the filters read what is new in their streams (with `read`) and
    /// close their output where the stream has ended; then every tuple is
    /// matched.
    fn pass_all(&mut self, read: bool)
        requires
            old(self).base_ok(),
            old(self).singles_ok(),
            !read ==> forall|v: int, t: int|
                0 <= v < old(self).automaton.dimensions && 0 <= t < old(self).sequences@.len() ==> #[trigger] old(
                    self,
                ).filter_fed(v, t),
        ensures
            final(self).wf(),
            final(self).automaton == old(self).automaton,
            final(self).sequences@ == old(self).sequences@,
            final(self).same_patterns(*old(self)),
            final(self).filters_agree(),
            final(self).filters_flushed(),
            final(self).runs_from(*old(self)),
    {
        let ghost before = *self;
        let n = self.sequences.len();
        let dims = self.automaton.dimensions;
        proof {
            self.lemma_grew_refl();
        }
        for v in 0..dims
            invariant
                self.base_ok(),
                self.singles_ok(),
                self.grew_from(before),
                n == self.sequences@.len(),
                dims == self.automaton.dimensions,
                forall|w: int, u: int| 0 <= w < v && 0 <= u < n ==> #[trigger] self.filter_fed(w, u),
                !read ==> forall|w: int, u: int| 0 <= w < dims && 0 <= u < n ==> #[trigger] self.filter_fed(w, u),
                forall|w: int, u: int|
                    0 <= w < v && 0 <= u < n && self.sequences@[u].is_closed_spec() ==> #[trigger] self.filter_at(
                        w,
                        u,
                    ).output_closed(),
        {
            for t in 0..n
                invariant
                    self.base_ok(),
                    self.singles_ok(),
                    self.grew_from(before),
                    n == self.sequences@.len(),
                    dims == self.automaton.dimensions,
                    v < dims,
                    forall|w: int, u: int| 0 <= w < v && 0 <= u < n ==> #[trigger] self.filter_fed(w, u),
                    !read ==> forall|w: int, u: int| 0 <= w < dims && 0 <= u < n ==> #[trigger] self.filter_fed(w, u),
                    forall|w: int, u: int|
                        0 <= w < v && 0 <= u < n && self.sequences@[u].is_closed_spec() ==> #[trigger] self.filter_at(
                            w,
                            u,
                        ).output_closed(),
                    forall|u: int| 0 <= u < t ==> #[trigger] self.filter_fed(v as int, u),
                    forall|u: int|
                        0 <= u < t && self.sequences@[u].is_closed_spec() ==> #[trigger] self.filter_at(
                            v as int,
                            u,
                        ).output_closed(),
            {
                let ghost cur = *self;
                if read {
                    self.run_filter(v, t);
                } else {
                    self.close_filter(v, t);
                }
                proof {
                    self.lemma_grew_trans(cur, before);
                    assert forall|w: int, u: int| 0 <= w < v && 0 <= u < n implies #[trigger] self.filter_fed(w, u) by {
                        assert(self.filter_at(w, u) == cur.filter_at(w, u));
                        assert(cur.filter_fed(w, u));
                    }
                    if !read {
                        assert forall|w: int, u: int| 0 <= w < dims && 0 <= u < n implies #[trigger] self.filter_fed(w, u) by {
                            if !(w == v && u == t) {
                                assert(self.filter_at(w, u) == cur.filter_at(w, u));
                            }
                            assert(cur.filter_fed(w, u));
                        }
                    }
                    assert forall|w: int, u: int|
                        0 <= w < v && 0 <= u < n && self.sequences@[u].is_closed_spec() implies #[trigger] self.filter_at(
                            w,
                            u,
                        ).output_closed() by {
                        assert(self.filter_at(w, u) == cur.filter_at(w, u));
                    }
                    assert forall|u: int| 0 <= u < t + 1 implies #[trigger] self.filter_fed(v as int, u) by {
                        if u < t {
                            assert(self.filter_at(v as int, u) == cur.filter_at(v as int, u));
                            assert(cur.filter_fed(v as int, u));
                        }
                    }
                    assert forall|u: int|
                        0 <= u < t + 1 && self.sequences@[u].is_closed_spec() implies #[trigger] self.filter_at(
                            v as int,
                            u,
                        ).output_closed() by {
                        if u < t {
                            assert(self.filter_at(v as int, u) == cur.filter_at(v as int, u));
                        }
                    }
                }
            }
        }
        let ghost mid = *self;
        self.run_singles();
        proof {
            assert forall|v: int, t: int| 0 <= v < dims && 0 <= t < n implies #[trigger] self.filter_fed(v, t) by {
                assert(mid.filter_fed(v, t));
            }
            assert forall|v: int, t: int|
                0 <= v < dims && 0 <= t < n implies #[trigger] self.filter_pattern(v, t) == before.filter_pattern(v, t) by {
                assert(mid.filter_output(v, t).len() >= before.filter_output(v, t).len());
                assert(mid.filter_pattern(v, t) == before.filter_pattern(v, t));
            }
            assert forall|v: int, t: int| 0 <= v < dims && 0 <= t < n implies is_variable_pattern(
                self.automaton(),
                v as nat,
                #[trigger] self.filter_pattern(v, t),
            ) by {
                assert(self.filter_base(v, t));
            }
            assert forall|v: int, t: int, j: int|
                0 <= v < dims && 0 <= t < n && 0 <= j < self.filter_output(v, t).len() implies #[trigger] self.filter_output(
                    v,
                    t,
                )[j] == filtered_at(self.filter_pattern(v, t), self.streams()[t], j) by {
                assert(self.filter_base(v, t));
                assert(self.filter_fed(v, t));
            }
            assert forall|v: int, t: int|
                0 <= v < dims && 0 <= t < n && self.is_eof(t) implies (#[trigger] self.filter_output(v, t)).len()
                    == self.streams()[t].len() by {
                assert(self.filter_base(v, t));
                assert(self.filter_fed(v, t));
                assert(mid.filter_at(v, t).output_closed());
            }
            self.lemma_runs_from_same(mid, before);
        }
    }

    /// Appends `action` to the stream `track`, unless it has ended, then
    /// runs the filters of that stream, closes the filters of the ended
    /// streams and matches every tuple.
    pub fn feed(&mut self, action: &str, track: usize)
        requires
            old(self).wf(),
            track < old(self).num_tracks(),
        ensures
            final(self).wf(),
            final(self).automaton() == old(self).automaton(),
            final(self).num_tracks() == old(self).num_tracks(),
            forall|t: int| #[trigger] final(self).is_eof(t) == old(self).is_eof(t),
            final(self).streams() == if old(self).is_eof(track as int) {
                old(self).streams()
            } else {
                old(self).streams().update(track as int, old(self).streams()[track as int].push(action@))
            },
            final(self).same_patterns(*old(self)),
            final(self).filters_agree(),
            final(self).filters_flushed(),
            final(self).runs_from(*old(self)),
    {
        let ghost before = *self;
        let n = self.sequences.len();
        let dims = self.automaton.dimensions;
        if !self.sequences[track].is_closed() {
            let mut s = AppendOnlySequence::new();
            std::mem::swap(&mut s, &mut self.sequences[track]);
            let ghost old_items = s.items_deep();
            s.append(action.to_owned());
            proof {
                assert(s.items_deep() =~= old_items.push(action@));
            }
            std::mem::swap(&mut s, &mut self.sequences[track]);
            proof {
                assert forall|v: int, t: int| 0 <= v < dims && 0 <= t < n implies #[trigger] self.filter_base(v, t) by {
                    assert(before.filter_base(v, t));
                    assert(before.filter_fed(v, t));
                    assert(self.filter_at(v, t) == before.filter_at(v, t));
                    if t == track {
                        assert(self.sequences@[t].items_deep().take(old_items.len() as int) =~= old_items);
                    } else {
                        assert(self.sequences@[t] == before.sequences@[t]);
                    }
                }
                assert forall|k: int| 0 <= k < self.single_matchings@.len() implies #[trigger] self.single_ok(k) by {
                    assert(before.single_ok(k));
                    assert(self.tuple_streams(self.tuple(k)) =~= before.tuple_streams(self.tuple(k)));
                }
                assert(streams_of(self.sequences@) =~= streams_of(before.sequences@).update(
                    track as int,
                    streams_of(before.sequences@)[track as int].push(action@),
                ));
            }
        }
        let ghost mid = *self;
        proof {
            self.lemma_grew_refl();
            assert forall|w: int, u: int| 0 <= w < dims && 0 <= u < n && u != track implies #[trigger] self.filter_fed(w, u) by {
                assert(before.filter_fed(w, u));
                assert(self.filter_at(w, u) == before.filter_at(w, u));
                assert(self.sequences@[u] == before.sequences@[u]);
            }
        }
        for v in 0..dims
            invariant
                self.base_ok(),
                self.singles_ok(),
                self.grew_from(mid),
                n == self.sequences@.len(),
                dims == self.automaton.dimensions,
                track < n,
                mid.sequences@ == self.sequences@,
                forall|w: int, u: int| 0 <= w < dims && 0 <= u < n && u != track ==> #[trigger] self.filter_fed(w, u),
                forall|w: int| 0 <= w < v ==> #[trigger] self.filter_fed(w, track as int),
        {
            let ghost cur = *self;
            self.run_filter(v, track);
            proof {
                self.lemma_grew_trans(cur, mid);
                assert forall|w: int, u: int| 0 <= w < dims && 0 <= u < n && u != track implies #[trigger] self.filter_fed(w, u) by {
                    assert(self.filter_at(w, u) == cur.filter_at(w, u));
                    assert(cur.filter_fed(w, u));
                }
                assert forall|w: int| 0 <= w < v + 1 implies #[trigger] self.filter_fed(w, track as int) by {
                    if w < v {
                        assert(self.filter_at(w, track as int) == cur.filter_at(w, track as int));
                        assert(cur.filter_fed(w, track as int));
                    }
                }
            }
        }
        let ghost fed = *self;
        proof {
            assert forall|v: int, t: int| 0 <= v < dims && 0 <= t < n implies #[trigger] self.filter_fed(v, t) by {
                if t != track {
                    assert(self.filter_fed(v, t));
                }
            }
        }
        self.pass_all(false);
        proof {
            assert forall|v: int, t: int|
                0 <= v < dims && 0 <= t < n implies #[trigger] self.filter_pattern(v, t) == before.filter_pattern(v, t) by {
                assert(self.filter_pattern(v, t) == fed.filter_pattern(v, t));
                assert(fed.filter_output(v, t).len() >= mid.filter_output(v, t).len());
                assert(fed.filter_pattern(v, t) == mid.filter_pattern(v, t));
                assert(mid.filter_at(v, t) == before.filter_at(v, t));
            }
            assert(mid.single_matchings@ == before.single_matchings@);
            assert(fed.single_matchings@ == before.single_matchings@);
            self.lemma_runs_from_same(fed, before);
        }
    }
}

impl<'a, Notifier: ResultNotifier + Clone> FilteredHyperPatternMatching<'a, Notifier> {
    /// Runs every filter on what is new in its stream, closing its output
    /// where the stream has ended, then matches every tuple.
    pub fn consume(&mut self)
        requires
            old(self).wf(),
        ensures
            final(self).wf(),
            final(self).automaton() == old(self).automaton(),
            final(self).num_tracks() == old(self).num_tracks(),
            forall|t: int| #[trigger] final(self).is_eof(t) == old(self).is_eof(t),
            final(self).streams() == old(self).streams(),
            final(self).same_patterns(*old(self)),
            final(self).filters_agree(),
            final(self).filters_flushed(),
            final(self).runs_from(*old(self)),
    {
        self.pass_all(true);
    }

    /// Matches what is left once the streams have ended.
    pub fn consume_remaining(&mut self)
        requires
            old(self).wf(),
        ensures
            final(self).wf(),
            final(self).automaton() == old(self).automaton(),
            final(self).num_tracks() == old(self).num_tracks(),
            forall|t: int| #[trigger] final(self).is_eof(t) == old(self).is_eof(t),
            final(self).streams() == old(self).streams(),
            final(self).same_patterns(*old(self)),
            final(self).filters_agree(),
            final(self).filters_flushed(),
            final(self).runs_from(*old(self)),
    {
        self.consume();
    }

    /// Marks the stream `track` as ended, closes the output of the filters
    /// of the ended streams and matches every tuple on what that settles.
    pub fn set_eof(&mut self, track: usize)
        requires
            old(self).wf(),
            track < old(self).num_tracks(),
        ensures
            final(self).wf(),
            final(self).automaton() == old(self).automaton(),
            final(self).num_tracks() == old(self).num_tracks(),
            final(self).streams() == old(self).streams(),
            final(self).is_eof(track as int),
            forall|t: int| t != track ==> #[trigger] final(self).is_eof(t) == old(self).is_eof(t),
            final(self).same_patterns(*old(self)),
            final(self).filters_agree(),
            final(self).filters_flushed(),
            final(self).runs_from(*old(self)),
    {
        let ghost before = *self;
        let n = self.sequences.len();
        let dims = self.automaton.dimensions;
        let mut s = AppendOnlySequence::new();
        std::mem::swap(&mut s, &mut self.sequences[track]);
        s.close();
        std::mem::swap(&mut s, &mut self.sequences[track]);
        proof {
            assert(streams_of(self.sequences@) =~= streams_of(before.sequences@));
            assert forall|v: int, t: int| 0 <= v < dims && 0 <= t < n implies #[trigger] self.filter_base(v, t) by {
                assert(before.filter_base(v, t));
                assert(self.filter_at(v, t) == before.filter_at(v, t));
                if t != track {
                    assert(self.sequences@[t] == before.sequences@[t]);
                }
            }
            assert forall|v: int, t: int| 0 <= v < dims && 0 <= t < n implies #[trigger] self.filter_fed(v, t) by {
                assert(before.filter_fed(v, t));
                assert(self.filter_at(v, t) == before.filter_at(v, t));
            }
            assert forall|k: int| 0 <= k < self.single_matchings@.len() implies #[trigger] self.single_ok(k) by {
                assert(before.single_ok(k));
                assert(self.tuple_streams(self.tuple(k)) =~= before.tuple_streams(self.tuple(k)));
            }
        }
        let ghost closed = *self;
        self.pass_all(false);
        proof {
            assert forall|v: int, t: int|
                0 <= v < dims && 0 <= t < n implies #[trigger] self.filter_pattern(v, t) == before.filter_pattern(v, t) by {
                assert(self.filter_pattern(v, t) == closed.filter_pattern(v, t));
                assert(closed.filter_at(v, t) == before.filter_at(v, t));
            }
            assert(closed.single_matchings@ == before.single_matchings@);
            self.lemma_runs_from_same(closed, before);
        }
    }

    /// The number of variables, which is also the number of streams.
    pub fn dimensions(&self) -> (r: usize)
        ensures
            r == self.automaton().dimensions,
    {
        self.automaton.dimensions
    }
}

impl<'a, Notifier: ResultNotifier + Clone> HyperPatternMatching for FilteredHyperPatternMatching<'a, Notifier> {
    closed spec fn ready(&self) -> bool {
        self.wf()
    }

    closed spec fn tracks(&self) -> nat {
        self.num_tracks()
    }

    closed spec fn fed(&self) -> Seq<Seq<Seq<char>>> {
        self.streams()
    }

    proof fn lemma_fed_len(&self) {
    }

    closed spec fn ended(&self, track: int) -> bool {
        self.is_eof(track)
    }

    fn feed(&mut self, action: &str, track: usize)
        ensures
            final(self).automaton() == old(self).automaton(),
            final(self).num_tracks() == old(self).num_tracks(),
            forall|t: int| #[trigger] final(self).is_eof(t) == old(self).is_eof(t),
            final(self).streams() == if old(self).is_eof(track as int) {
                old(self).streams()
            } else {
                old(self).streams().update(track as int, old(self).streams()[track as int].push(action@))
            },
            final(self).same_patterns(*old(self)),
            final(self).filters_agree(),
            final(self).filters_flushed(),
            final(self).runs_from(*old(self)),
    {
        FilteredHyperPatternMatching::feed(self, action, track);
    }

    fn dimensions(&self) -> (r: usize) {
        self.sequences.len()
    }

    fn consume_remaining(&mut self)
        ensures
            final(self).automaton() == old(self).automaton(),
            final(self).num_tracks() == old(self).num_tracks(),
            forall|t: int| #[trigger] final(self).is_eof(t) == old(self).is_eof(t),
            final(self).streams() == old(self).streams(),
            final(self).same_patterns(*old(self)),
            final(self).filters_agree(),
            final(self).filters_flushed(),
            final(self).runs_from(*old(self)),
    {
        FilteredHyperPatternMatching::consume_remaining(self);
    }

    fn set_eof(&mut self, track: usize) {
        FilteredHyperPatternMatching::set_eof(self, track);
    }
}

} // verus!
