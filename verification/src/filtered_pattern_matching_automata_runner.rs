use vstd::prelude::*;
use crate::automata::{Automata, Transition};
use crate::sequence::{AppendOnlySequence, ReadableView};
use crate::label::{ValidLabel, lemma_push_contains};
use crate::hyper_pattern_matching::{
    ConfigView, starts_of, copy_positions, copy_views, same_positions, same_views, pos_sum,
    lemma_pos_sum_increment, lemma_pos_sum_bound, keep_final,
};

verus! {

/// The contents of filtered streams: each element is the letter, by its
/// characters, or `None` where the filter masked it.
pub open spec fn filtered_streams_of(sequences: Seq<&AppendOnlySequence<Option<String>>>) -> Seq<Seq<Option<Seq<char>>>> {
    sequences.map_values(|s: &AppendOnlySequence<Option<String>>| s.items_deep())
}

/// Every filtered stream has at most `usize::MAX` elements.
pub open spec fn filtered_bounded(streams: Seq<Seq<Option<Seq<char>>>>) -> bool {
    forall|i: int| 0 <= i < streams.len() ==> #[trigger] streams[i].len() <= usize::MAX
}

/// The streams of real sequences are bounded.
pub proof fn lemma_filtered_bounded(sequences: Seq<&AppendOnlySequence<Option<String>>>)
    ensures
        filtered_bounded(filtered_streams_of(sequences)),
{
    assert forall|i: int| 0 <= i < filtered_streams_of(sequences).len() implies #[trigger] filtered_streams_of(sequences)[i].len() <= usize::MAX by {
        sequences[i].lemma_len_bound();
    }
}

/// The configuration reached from `c` by the transition `t`, if `t` reads
/// the next element of the stream of its variable (the `i`-th stream is
/// read in dimension `i`); a masked element is read by no transition.
pub open spec fn filtered_step(
    streams: Seq<Seq<Option<Seq<char>>>>,
    c: ConfigView,
    t: Transition<(String, usize)>,
) -> Option<ConfigView> {
    let var = t.label.1 as int;
    if var < c.1.len() && var < streams.len() && c.1[var] < streams[var].len() && streams[var][c.1[var] as int]
        == Some(t.label.0@) {
        Some((t.next_state, c.1.update(var, (c.1[var] + 1) as usize), c.2, c.3))
    } else {
        None
    }
}

/// `d` is reached from `c` by one transition of `aut`.
pub open spec fn filtered_successor(
    aut: Automata<(String, usize)>,
    streams: Seq<Seq<Option<Seq<char>>>>,
    c: ConfigView,
    d: ConfigView,
) -> bool {
    exists|k: int|
        0 <= k < aut.trans(c.0 as int).len() && #[trigger] filtered_step(streams, c, aut.trans(c.0 as int)[k])
            == Some(d)
}

/// `c` fits `aut` and the streams: its state exists, it has one position
/// per variable, and each position lies within the stream of its dimension.
pub open spec fn filtered_valid(
    aut: Automata<(String, usize)>,
    streams: Seq<Seq<Option<Seq<char>>>>,
    c: ConfigView,
) -> bool {
    &&& c.0 < aut.num_states()
    &&& c.1.len() == aut.dimensions
    &&& c.2.len() == aut.dimensions
    &&& aut.dimensions <= streams.len()
    &&& forall|i: int| 0 <= i < c.1.len() ==> #[trigger] c.1[i] <= streams[i].len()
}

/// Some dimension has read all of its stream while that stream may still grow.
pub open spec fn filtered_waiting(sequences: Seq<&AppendOnlySequence<Option<String>>>, c: ConfigView) -> bool {
    exists|i: int|
        0 <= i < c.1.len() && !sequences[i].is_closed_spec() && #[trigger] c.1[i] == sequences[i].items().len()
}

/// The next element of some dimension is masked.
pub open spec fn filtered_masked(streams: Seq<Seq<Option<Seq<char>>>>, c: ConfigView) -> bool {
    exists|i: int| 0 <= i < c.1.len() && #[trigger] c.1[i] < streams[i].len() && streams[i][c.1[i] as int] is None
}

/// A configuration of an automaton run over filtered streams: the current
/// state, a view per variable on the stream of that dimension, the position
/// where the matching began in each view, and the words the variables
/// stand for.
#[derive(Debug)]
pub struct FilteredPatternMatchingAutomataConfiguration {
    /// The current state of the automaton.
    pub current_state: usize,
    /// The reading position in each dimension.
    pub input_sequence: Vec<ReadableView>,
    /// The position where the matching began in each dimension.
    pub matching_begin: Vec<usize>,
    /// The words handled by this configuration.
    pub ids: Vec<usize>,
}

impl View for FilteredPatternMatchingAutomataConfiguration {
    type V = ConfigView;

    open spec fn view(&self) -> ConfigView {
        (self.current_state, starts_of(self.input_sequence@), self.matching_begin@, self.ids@)
    }
}

impl FilteredPatternMatchingAutomataConfiguration {
    /// Creates a configuration at `current_state` reading the given views;
    /// the matching begins where the views stand.
    pub fn new(current_state: usize, input_sequence: Vec<ReadableView>, ids: Vec<usize>) -> (r: Self)
        ensures
            r@ == (current_state, starts_of(input_sequence@), starts_of(input_sequence@), ids@),
    {
        let mut matching_begin: Vec<usize> = Vec::new();
        for i in 0..input_sequence.len()
            invariant
                matching_begin@ == starts_of(input_sequence@).subrange(0, i as int),
        {
            matching_begin.push(input_sequence[i].start);
            assert(matching_begin@ =~= starts_of(input_sequence@).subrange(0, i + 1));
        }
        assert(matching_begin@ =~= starts_of(input_sequence@));
        Self { current_state, input_sequence, matching_begin, ids }
    }

    /// Whether the current state accepts.
    pub fn is_final(&self, automaton: &Automata<(String, usize)>) -> (r: bool)
        requires
            self.current_state < automaton.num_states(),
        ensures
            r == automaton.final_at(self.current_state as int),
    {
        automaton.states[self.current_state].is_final
    }

    /// Whether some view has read all of its stream while that stream may
    /// still grow.
    pub fn is_waiting(&self, sequences: &Vec<&AppendOnlySequence<Option<String>>>) -> (r: bool)
        requires
            self.input_sequence@.len() <= sequences@.len(),
        ensures
            r == filtered_waiting(sequences@, self@),
    {
        for i in 0..self.input_sequence.len()
            invariant
                self.input_sequence@.len() <= sequences@.len(),
                forall|k: int|
                    0 <= k < i ==> !(!sequences@[k].is_closed_spec() && #[trigger] self.input_sequence@[k].start
                        == sequences@[k].items().len()),
        {
            let s = sequences[i];
            if !s.is_closed() && self.input_sequence[i].start == s.len() {
                assert(self@.1[i as int] == self.input_sequence@[i as int].start);
                return true;
            }
        }
        proof {
            if filtered_waiting(sequences@, self@) {
                let k = choose|k: int| 0 <= k < self@.1.len() && !sequences@[k].is_closed_spec()
                    && #[trigger] self@.1[k] == sequences@[k].items().len();
                assert(self@.1[k] == self.input_sequence@[k].start);
            }
        }
        false
    }

    /// Whether the next element of some view is masked.
    pub fn is_masked(&self, sequences: &Vec<&AppendOnlySequence<Option<String>>>) -> (r: bool)
        requires
            self.input_sequence@.len() <= sequences@.len(),
        ensures
            r == filtered_masked(filtered_streams_of(sequences@), self@),
    {
        let ghost streams = filtered_streams_of(sequences@);
        for i in 0..self.input_sequence.len()
            invariant
                self.input_sequence@.len() <= sequences@.len(),
                streams == filtered_streams_of(sequences@),
                forall|k: int|
                    0 <= k < i ==> !(#[trigger] self@.1[k] < streams[k].len() && streams[k][self@.1[k] as int] is None),
        {
            let s = sequences[i];
            assert(streams[i as int] == s.items_deep());
            assert(self@.1[i as int] == self.input_sequence@[i as int].start);
            match s.get(self.input_sequence[i].start) {
                Some(h) => {
                    assert(streams[i as int][self@.1[i as int] as int] == h.deep_view());
                    if h.is_none() {
                        return true;
                    }
                },
                None => {},
            }
        }
        false
    }

    /// The number of variables.
    pub fn dimensions(&self) -> (r: usize)
        ensures
            r == self.input_sequence@.len(),
    {
        self.input_sequence.len()
    }

    /// The transitions leaving the current state.
    pub fn transitions<'b>(&self, automaton: &'b Automata<(String, usize)>) -> (r: &'b Vec<Transition<(String, usize)>>)
        requires
            self.current_state < automaton.num_states(),
        ensures
            r@ == automaton.trans(self.current_state as int),
    {
        &automaton.states[self.current_state].transitions
    }

    /// A copy of the configuration at `current_state`.
    pub fn duplicate(&self, current_state: usize) -> (r: Self)
        ensures
            r@ == (current_state, self@.1, self@.2, self@.3),
    {
        Self {
            current_state,
            input_sequence: copy_views(&self.input_sequence),
            matching_begin: copy_positions(&self.matching_begin),
            ids: copy_positions(&self.ids),
        }
    }

    /// Tells whether two configurations are equal.
    pub fn same_configuration(&self, other: &Self) -> (r: bool)
        ensures
            r == (self@ == other@),
    {
        self.current_state == other.current_state && same_views(&self.input_sequence, &other.input_sequence)
            && same_positions(&self.matching_begin, &other.matching_begin) && same_positions(&self.ids, &other.ids)
    }

    /// The next letter of the `i`-th view, if there is one and it is not
    /// masked.
    pub fn input_head(&self, sequences: &Vec<&AppendOnlySequence<Option<String>>>, i: usize) -> (r: Option<String>)
        requires
            self.input_sequence@.len() <= sequences@.len(),
        ensures
            match r {
                Some(h) => i < self.input_sequence@.len() && self.input_sequence@[i as int].start < sequences@[i as int].items().len()
                    && filtered_streams_of(sequences@)[i as int][self.input_sequence@[i as int].start as int] == Some(h@),
                None => i >= self.input_sequence@.len() || self.input_sequence@[i as int].start >= sequences@[i as int].items().len()
                    || filtered_streams_of(sequences@)[i as int][self.input_sequence@[i as int].start as int] is None,
            },
    {
        if i < self.input_sequence.len() {
            let s = sequences[i];
            assert(filtered_streams_of(sequences@)[i as int] == s.items_deep());
            match s.get(self.input_sequence[i].start) {
                Some(h) => match h {
                    Some(x) => Some(x.clone()),
                    None => None,
                },
                None => None,
            }
        } else {
            None
        }
    }

    /// Moves the `i`-th view forward by `count` elements, stopping at the
    /// end of its stream.
    pub fn input_advance(&mut self, sequences: &Vec<&AppendOnlySequence<Option<String>>>, i: usize, count: usize)
        requires
            old(self).input_sequence@.len() <= sequences@.len(),
        ensures
            final(self).current_state == old(self).current_state,
            final(self).matching_begin@ == old(self).matching_begin@,
            final(self).ids@ == old(self).ids@,
            final(self).input_sequence@.len() == old(self).input_sequence@.len(),
            forall|k: int| 0 <= k < old(self).input_sequence@.len() && k != i ==> final(self).input_sequence@[k] == old(self).input_sequence@[k],
            i < old(self).input_sequence@.len() ==> final(self).input_sequence@[i as int].start == if old(self).input_sequence@[i as int].start + count < sequences@[i as int].items().len() {
                (old(self).input_sequence@[i as int].start + count) as int
            } else {
                sequences@[i as int].items().len() as int
            },
    {
        if i < self.input_sequence.len() {
            let mut v = self.input_sequence[i];
            v.advance_readable(sequences[i], count);
            self.input_sequence.set(i, v);
        }
    }
}

/// Whether some configuration of `v` equals `c`.
pub fn contains_filtered_configuration(
    v: &Vec<FilteredPatternMatchingAutomataConfiguration>,
    c: &FilteredPatternMatchingAutomataConfiguration,
) -> (r: bool)
    ensures
        r == exists|j: int| 0 <= j < v@.len() && #[trigger] v@[j]@ == c@,
{
    for j in 0..v.len()
        invariant
            forall|k: int| 0 <= k < j ==> #[trigger] v@[k]@ != c@,
    {
        if v[j].same_configuration(c) {
            return true;
        }
    }
    false
}

impl FilteredPatternMatchingAutomataConfiguration {
    /// The configurations reached from this one by one transition of
    /// `automaton`, each once: a transition labelled (`a`, `x`) applies when
    /// the next element of the view of `x` is the letter `a`, and moves that
    /// view one element forward.
    pub fn successors(
        &self,
        automaton: &Automata<(String, usize)>,
        sequences: &Vec<&AppendOnlySequence<Option<String>>>,
    ) -> (r: Vec<Self>)
        requires
            automaton.wf(),
            filtered_valid(*automaton, filtered_streams_of(sequences@), self@),
        ensures
            forall|j: int| 0 <= j < r@.len() ==> filtered_successor(*automaton, filtered_streams_of(sequences@), self@, #[trigger] r@[j]@),
            forall|j: int| 0 <= j < r@.len() ==> filtered_valid(*automaton, filtered_streams_of(sequences@), #[trigger] r@[j]@),
            forall|d: ConfigView| filtered_successor(*automaton, filtered_streams_of(sequences@), self@, d) ==> exists|j: int|
                0 <= j < r@.len() && #[trigger] r@[j]@ == d,
            forall|i: int, j: int| 0 <= i < j < r@.len() ==> r@[i]@ != r@[j]@,
    {
        let ghost streams = filtered_streams_of(sequences@);
        let ts = self.transitions(automaton);
        assert(self.input_sequence@.len() == starts_of(self.input_sequence@).len());
        let mut r: Vec<Self> = Vec::new();
        for k in 0..ts.len()
            invariant
                automaton.wf(),
                streams == filtered_streams_of(sequences@),
                filtered_valid(*automaton, streams, self@),
                self.input_sequence@.len() == automaton.dimensions,
                ts@ == automaton.trans(self.current_state as int),
                forall|j: int| 0 <= j < r@.len() ==> filtered_successor(*automaton, streams, self@, #[trigger] r@[j]@),
                forall|j: int| 0 <= j < r@.len() ==> filtered_valid(*automaton, streams, #[trigger] r@[j]@),
                forall|k2: int| 0 <= k2 < k && filtered_step(streams, self@, #[trigger] ts@[k2]) is Some ==> exists|j: int|
                    0 <= j < r@.len() && #[trigger] r@[j]@ == filtered_step(streams, self@, ts@[k2])->0,
                forall|i: int, j: int| 0 <= i < j < r@.len() ==> r@[i]@ != r@[j]@,
        {
            let t = &ts[k];
            let var = t.label.1;
            let ghost old_r = r@;
            proof {
                assert(automaton.trans(self.current_state as int)[k as int].label.valid_for(automaton.dimensions as nat));
                assert(automaton.trans(self.current_state as int)[k as int].next_state < automaton.num_states());
            }
            let head = self.input_head(sequences, var);
            match head {
                Some(h) => {
                    if h == t.label.0 {
                        let mut s = self.duplicate(t.next_state);
                        s.input_advance(sequences, var, 1);
                        proof {
                            assert(self@.1[var as int] == self.input_sequence@[var as int].start);
                            assert(filtered_step(streams, self@, ts@[k as int]) is Some);
                            assert(s@.1 =~= self@.1.update(var as int, (self@.1[var as int] + 1) as usize));
                            assert(s@ == filtered_step(streams, self@, ts@[k as int])->0);
                            assert(filtered_successor(*automaton, streams, self@, s@));
                            assert forall|i: int| 0 <= i < s@.1.len() implies #[trigger] s@.1[i] <= streams[i].len() by {
                                assert(self@.1[i] <= streams[i].len());
                            }
                        }
                        let ghost sv = s@;
                        if !contains_filtered_configuration(&r, &s) {
                            r.push(s);
                            proof {
                                assert(r@[r@.len() - 1]@ == sv);
                            }
                        }
                    } else {
                        proof {
                            assert(self@.1[var as int] == self.input_sequence@[var as int].start);
                            assert(filtered_step(streams, self@, ts@[k as int]) is None);
                        }
                    }
                },
                None => {
                    proof {
                        if var < self@.1.len() {
                            assert(self@.1[var as int] == self.input_sequence@[var as int].start);
                        }
                        assert(filtered_step(streams, self@, ts@[k as int]) is None);
                    }
                },
            }
            proof {
                assert forall|k2: int| 0 <= k2 < k + 1 && filtered_step(streams, self@, #[trigger] ts@[k2]) is Some implies exists|j: int|
                    0 <= j < r@.len() && #[trigger] r@[j]@ == filtered_step(streams, self@, ts@[k2])->0 by {
                    if k2 < k {
                        let j = choose|j: int| 0 <= j < old_r.len() && #[trigger] old_r[j]@ == filtered_step(streams, self@, ts@[k2])->0;
                        assert(r@[j] == old_r[j]);
                    }
                }
            }
        }
        proof {
            assert forall|d: ConfigView| filtered_successor(*automaton, streams, self@, d) implies exists|j: int|
                0 <= j < r@.len() && #[trigger] r@[j]@ == d by {
                let k2 = choose|k2: int|
                    0 <= k2 < automaton.trans(self@.0 as int).len() && #[trigger] filtered_step(streams, self@, automaton.trans(self@.0 as int)[k2]) == Some(d);
                assert(filtered_step(streams, self@, ts@[k2]) is Some);
            }
        }
        r
    }
}


/// The views of a list of configurations.
pub open spec fn filtered_views_of(v: Seq<FilteredPatternMatchingAutomataConfiguration>) -> Seq<ConfigView> {
    v.map_values(|c: FilteredPatternMatchingAutomataConfiguration| c@)
}

/// The `i`-th configuration of `path` is followed by a successor.
pub open spec fn filtered_successor_at(
    aut: Automata<(String, usize)>,
    streams: Seq<Seq<Option<Seq<char>>>>,
    path: Seq<ConfigView>,
    i: int,
) -> bool {
    filtered_successor(aut, streams, path[i], path[i + 1])
}

/// `d` is reached from `c` by `n` transitions.
pub open spec fn filtered_derives(
    aut: Automata<(String, usize)>,
    streams: Seq<Seq<Option<Seq<char>>>>,
    c: ConfigView,
    d: ConfigView,
    n: nat,
) -> bool {
    exists|path: Seq<ConfigView>|
        #![trigger path[0], path[n as int]]
        path.len() == n + 1 && path[0] == c && path[n as int] == d && forall|i: int|
            0 <= i < n ==> #[trigger] filtered_successor_at(aut, streams, path, i)
}

/// `d` is reached by transitions from some configuration of `start`.
pub open spec fn filtered_derivable(
    aut: Automata<(String, usize)>,
    streams: Seq<Seq<Option<Seq<char>>>>,
    start: Seq<ConfigView>,
    d: ConfigView,
) -> bool {
    exists|c: ConfigView, n: nat| start.contains(c) && #[trigger] filtered_derives(aut, streams, c, d, n)
}

/// Every successor of `x` is among `configs`.
pub open spec fn filtered_closed_at(
    aut: Automata<(String, usize)>,
    streams: Seq<Seq<Option<Seq<char>>>>,
    configs: Seq<ConfigView>,
    x: ConfigView,
) -> bool {
    forall|e: ConfigView| #[trigger] filtered_successor(aut, streams, x, e) ==> configs.contains(e)
}

/// The length of the longest stream.
pub open spec fn filtered_max_len(streams: Seq<Seq<Option<Seq<char>>>>) -> nat
    decreases streams.len(),
{
    if streams.len() == 0 {
        0
    } else {
        let m = filtered_max_len(streams.drop_last());
        if streams.last().len() > m {
            streams.last().len()
        } else {
            m
        }
    }
}

proof fn lemma_filtered_max_len(streams: Seq<Seq<Option<Seq<char>>>>, i: int)
    requires
        0 <= i < streams.len(),
    ensures
        streams[i].len() <= filtered_max_len(streams),
    decreases streams.len(),
{
    if i < streams.len() - 1 {
        lemma_filtered_max_len(streams.drop_last(), i);
    }
}

/// A successor has read one letter more than its predecessor.
proof fn lemma_filtered_successor_sum(
    aut: Automata<(String, usize)>,
    streams: Seq<Seq<Option<Seq<char>>>>,
    c: ConfigView,
    d: ConfigView,
)
    requires
        aut.wf(),
        filtered_bounded(streams),
        filtered_valid(aut, streams, c),
        filtered_successor(aut, streams, c, d),
    ensures
        pos_sum(d.1) == pos_sum(c.1) + 1,
        filtered_valid(aut, streams, d),
{
    let k = choose|k: int|
        0 <= k < aut.trans(c.0 as int).len() && #[trigger] filtered_step(streams, c, aut.trans(c.0 as int)[k]) == Some(d);
    let t = aut.trans(c.0 as int)[k];
    let var = t.label.1 as int;
    assert(t.next_state < aut.num_states());
    assert(streams[var].len() <= usize::MAX);
    lemma_pos_sum_increment(c.1, var);
    assert forall|i: int| 0 <= i < d.1.len() implies #[trigger] d.1[i] <= streams[i].len() by {
        assert(c.1[i] <= streams[i].len());
    }
}

/// The positions of a valid configuration sum to at most `dimensions`
/// times the longest stream.
proof fn lemma_filtered_valid_sum_bound(aut: Automata<(String, usize)>, streams: Seq<Seq<Option<Seq<char>>>>, c: ConfigView)
    requires
        filtered_valid(aut, streams, c),
    ensures
        0 <= pos_sum(c.1) <= aut.dimensions * filtered_max_len(streams),
{
    assert forall|i: int| 0 <= i < c.1.len() implies c.1[i] <= filtered_max_len(streams) by {
        assert(c.1[i] <= streams[i].len());
        lemma_filtered_max_len(streams, i);
    }
    lemma_pos_sum_bound(c.1, filtered_max_len(streams));
}

/// A configuration derives itself, and derivations extend by successors.
proof fn lemma_filtered_derives_extend(
    aut: Automata<(String, usize)>,
    streams: Seq<Seq<Option<Seq<char>>>>,
    c: ConfigView,
    d: ConfigView,
    e: ConfigView,
    n: nat,
)
    requires
        filtered_derives(aut, streams, c, d, n),
        filtered_successor(aut, streams, d, e),
    ensures
        filtered_derives(aut, streams, c, e, n + 1),
{
    let path = choose|path: Seq<ConfigView>|
        #![trigger path[0], path[n as int]]
        path.len() == n + 1 && path[0] == c && path[n as int] == d && forall|i: int|
            0 <= i < n ==> #[trigger] filtered_successor_at(aut, streams, path, i);
    let ext = path.push(e);
    assert forall|i: int| 0 <= i < n + 1 implies #[trigger] filtered_successor_at(aut, streams, ext, i) by {
        if i < n {
            assert(filtered_successor_at(aut, streams, path, i));
        }
    }
    assert(ext[0] == c && ext[(n + 1) as int] == e);
}

proof fn lemma_filtered_derives_refl(aut: Automata<(String, usize)>, streams: Seq<Seq<Option<Seq<char>>>>, c: ConfigView)
    ensures
        filtered_derives(aut, streams, c, c, 0),
{
    let path = seq![c];
    assert(path[0] == c && path[0int] == c);
}

/// Runs an automaton over streams by keeping the set of its configurations.
pub struct FilteredPatternMatchingAutomataRunner<'a> {
    automaton: &'a Automata<(String, usize)>,
    /// The current configurations, each once.
    pub current_configurations: Vec<FilteredPatternMatchingAutomataConfiguration>,
    /// The words handled by the configurations.
    ids: Vec<usize>,
}

impl<'a> FilteredPatternMatchingAutomataRunner<'a> {
    /// The automaton being run.
    pub closed spec fn automaton(&self) -> Automata<(String, usize)> {
        *self.automaton
    }

    /// The current configurations.
    pub closed spec fn configs(&self) -> Seq<ConfigView> {
        filtered_views_of(self.current_configurations@)
    }

    /// The words handled by the configurations.
    pub closed spec fn word_ids(&self) -> Seq<usize> {
        self.ids@
    }

    /// The automaton is well formed and the configurations are valid for
    /// the streams and pairwise different.
    pub open spec fn inv(&self, streams: Seq<Seq<Option<Seq<char>>>>) -> bool {
        &&& self.automaton().wf()
        &&& forall|j: int| 0 <= j < self.configs().len() ==> filtered_valid(self.automaton(), streams, #[trigger] self.configs()[j])
        &&& forall|i: int, j: int| 0 <= i < j < self.configs().len() ==> self.configs()[i] != self.configs()[j]
    }

    /// A runner for `automaton`, handling the words `ids`, with no
    /// configuration.
    pub fn new(automaton: &'a Automata<(String, usize)>, ids: Vec<usize>) -> (r: Self)
        requires
            automaton.dimensions == ids@.len(),
        ensures
            r.automaton() == *automaton,
            r.word_ids() == ids@,
            r.configs() == Seq::<ConfigView>::empty(),
    {
        let r = Self { automaton, current_configurations: Vec::new(), ids };
        assert(r.configs() =~= Seq::<ConfigView>::empty());
        r
    }

    /// Whether the automaton has an initial state.
    pub fn has_initial_states(&self) -> (r: bool)
        ensures
            r == (self.automaton().initial_states@.len() > 0),
    {
        self.automaton.initial_states.len() > 0
    }

    /// The number of configurations.
    pub fn len(&self) -> (r: usize)
        ensures
            r == self.configs().len(),
    {
        self.current_configurations.len()
    }

    /// The `j`-th current configuration.
    pub fn configuration_at(&self, j: usize) -> (r: &FilteredPatternMatchingAutomataConfiguration)
        requires
            j < self.configs().len(),
        ensures
            r@ == self.configs()[j as int],
    {
        &self.current_configurations[j]
    }

    /// Adds a configuration unless an equal one is there already.
    pub fn insert(&mut self, configuration: FilteredPatternMatchingAutomataConfiguration)
        ensures
            final(self).automaton() == old(self).automaton(),
            final(self).word_ids() == old(self).word_ids(),
            final(self).configs() == if old(self).configs().contains(configuration@) {
                old(self).configs()
            } else {
                old(self).configs().push(configuration@)
            },
    {
        let ghost cv = configuration@;
        if !contains_filtered_configuration(&self.current_configurations, &configuration) {
            self.current_configurations.push(configuration);
            assert(self.configs() =~= old(self).configs().push(cv));
        } else {
            proof {
                let j = choose|j: int| 0 <= j < old(self).current_configurations@.len() && #[trigger] old(self).current_configurations@[j]@ == cv;
                assert(old(self).configs()[j] == cv);
            }
        }
        proof {
            if old(self).configs().contains(cv) {
                let j = choose|j: int| 0 <= j < old(self).configs().len() && old(self).configs()[j] == cv;
                assert(old(self).current_configurations@[j]@ == cv);
            }
        }
    }
}


/// Some configuration of `v` at position `lo` or later equals `d`.
pub open spec fn filtered_present_from(v: Seq<FilteredPatternMatchingAutomataConfiguration>, lo: int, d: ConfigView) -> bool {
    exists|i: int| lo <= i < v.len() && #[trigger] v[i]@ == d
}

/// Adding a configuration keeps every configuration closed.
proof fn lemma_filtered_closed_push(
    aut: Automata<(String, usize)>,
    streams: Seq<Seq<Option<Seq<char>>>>,
    cs: Seq<ConfigView>,
    y: ConfigView,
)
    ensures
        forall|x: ConfigView| #[trigger] filtered_closed_at(aut, streams, cs, x) ==> filtered_closed_at(aut, streams, cs.push(y), x),
{
    lemma_push_contains(cs, y);
}

impl<'a> FilteredPatternMatchingAutomataRunner<'a> {
    /// The configurations as a list of views, and the same after a push.
    proof fn lemma_filtered_configs_push(&self, old_configs: Seq<FilteredPatternMatchingAutomataConfiguration>, c: FilteredPatternMatchingAutomataConfiguration)
        requires
            self.current_configurations@ == old_configs.push(c),
        ensures
            self.configs() == filtered_views_of(old_configs).push(c@),
    {
        assert(self.configs() =~= filtered_views_of(old_configs).push(c@));
    }

    /// Adds every configuration reached from the current ones by
    /// transitions over the streams, until no new configuration appears.
    pub fn consume(&mut self, sequences: &Vec<&AppendOnlySequence<Option<String>>>) -> (changed: bool)
        requires
            old(self).inv(filtered_streams_of(sequences@)),
        ensures
            final(self).inv(filtered_streams_of(sequences@)),
            final(self).automaton() == old(self).automaton(),
            final(self).word_ids() == old(self).word_ids(),
            changed == (final(self).configs().len() != old(self).configs().len()),
            forall|c: ConfigView| old(self).configs().contains(c) ==> #[trigger] final(self).configs().contains(c),
            forall|d: ConfigView| #[trigger] final(self).configs().contains(d) ==> filtered_derivable(
                final(self).automaton(),
                filtered_streams_of(sequences@),
                old(self).configs(),
                d,
            ),
            forall|d: ConfigView| #[trigger] final(self).configs().contains(d) ==> filtered_closed_at(
                final(self).automaton(),
                filtered_streams_of(sequences@),
                final(self).configs(),
                d,
            ),
    {
        let ghost streams = filtered_streams_of(sequences@);
        let ghost start = self.configs();
        let ghost aut = self.automaton();
        let ghost ids0 = self.word_ids();
        let initial_size = self.current_configurations.len();
        proof {
            lemma_filtered_bounded(sequences@);
        }
        let ghost bound: int = aut.dimensions * filtered_max_len(streams);
        let mut frontier: Vec<FilteredPatternMatchingAutomataConfiguration> = Vec::new();
        for i in 0..self.current_configurations.len()
            invariant
                self.configs() == start,
                filtered_views_of(frontier@) == start.subrange(0, i as int),
                i <= start.len(),
        {
            let c = &self.current_configurations[i];
            let d = c.duplicate(c.current_state);
            let ghost old_f = frontier@;
            let ghost dv = d@;
            frontier.push(d);
            proof {
                assert(start[i as int] == c@);
                assert(filtered_views_of(frontier@) =~= filtered_views_of(old_f).push(dv));
                assert(filtered_views_of(frontier@) =~= start.subrange(0, i + 1));
            }
        }
        proof {
            assert(filtered_views_of(frontier@) =~= start);
            assert forall|d: ConfigView| #[trigger] self.configs().contains(d) implies filtered_derivable(aut, streams, start, d) by {
                lemma_filtered_derives_refl(aut, streams, d);
            }
            assert forall|d: ConfigView| #[trigger] self.configs().contains(d) implies filtered_present_from(frontier@, 0, d) by {
                let i = choose|i: int| 0 <= i < start.len() && start[i] == d;
                assert(frontier@[i]@ == filtered_views_of(frontier@)[i]);
            }
            assert forall|j: int| 0 <= j < frontier@.len() implies #[trigger] self.configs().contains(frontier@[j]@) by {
                assert(start[j] == filtered_views_of(frontier@)[j]);
            }
            assert forall|j: int| 0 <= j < frontier@.len() implies pos_sum(#[trigger] frontier@[j]@.1) >= 0 by {
                assert(start[j] == filtered_views_of(frontier@)[j]);
                assert(filtered_valid(aut, streams, start[j]));
                lemma_filtered_valid_sum_bound(aut, streams, start[j]);
            }
        }
        let ghost mut depth: int = 0;
        while frontier.len() > 0
            invariant
                self.inv(streams),
                self.automaton() == aut,
                self.word_ids() == ids0,
                aut.wf(),
                streams == filtered_streams_of(sequences@),
                filtered_bounded(streams),
                bound == aut.dimensions * filtered_max_len(streams),
                0 <= depth <= bound + 1,
                forall|c: ConfigView| start.contains(c) ==> #[trigger] self.configs().contains(c),
                forall|d: ConfigView| #[trigger] self.configs().contains(d) ==> filtered_derivable(aut, streams, start, d),
                forall|j: int| 0 <= j < frontier@.len() ==> #[trigger] self.configs().contains(frontier@[j]@),
                forall|j: int| 0 <= j < frontier@.len() ==> pos_sum(#[trigger] frontier@[j]@.1) >= depth,
                forall|d: ConfigView| #[trigger] self.configs().contains(d) ==> filtered_present_from(frontier@, 0, d)
                    || filtered_closed_at(aut, streams, self.configs(), d),
            decreases bound + 1 - depth,
        {
            proof {
                let f = frontier@[0]@;
                assert(self.configs().contains(f));
                let i = choose|i: int| 0 <= i < self.configs().len() && self.configs()[i] == f;
                assert(filtered_valid(aut, streams, self.configs()[i]));
                lemma_filtered_valid_sum_bound(aut, streams, f);
            }
            let mut next: Vec<FilteredPatternMatchingAutomataConfiguration> = Vec::new();
            for j in 0..frontier.len()
                invariant
                    self.inv(streams),
                    self.automaton() == aut,
                    self.word_ids() == ids0,
                    aut.wf(),
                    streams == filtered_streams_of(sequences@),
                    filtered_bounded(streams),
                    forall|c: ConfigView| start.contains(c) ==> #[trigger] self.configs().contains(c),
                    forall|d: ConfigView| #[trigger] self.configs().contains(d) ==> filtered_derivable(aut, streams, start, d),
                    forall|i: int| 0 <= i < frontier@.len() ==> #[trigger] self.configs().contains(frontier@[i]@),
                    forall|i: int| 0 <= i < frontier@.len() ==> pos_sum(#[trigger] frontier@[i]@.1) >= depth,
                    forall|i: int| 0 <= i < next@.len() ==> #[trigger] self.configs().contains(next@[i]@),
                    forall|i: int| 0 <= i < next@.len() ==> pos_sum(#[trigger] next@[i]@.1) >= depth + 1,
                    forall|d: ConfigView| #[trigger] self.configs().contains(d) ==> filtered_present_from(frontier@, j as int, d)
                        || filtered_present_from(next@, 0, d) || filtered_closed_at(aut, streams, self.configs(), d),
            {
                let f = &frontier[j];
                proof {
                    assert(self.configs().contains(f@));
                    let i = choose|i: int| 0 <= i < self.configs().len() && self.configs()[i] == f@;
                    assert(filtered_valid(aut, streams, self.configs()[i]));
                }
                let succs = f.successors(self.automaton, sequences);
                for k in 0..succs.len()
                    invariant
                        self.inv(streams),
                        self.automaton() == aut,
                        self.word_ids() == ids0,
                        aut.wf(),
                        streams == filtered_streams_of(sequences@),
                        filtered_bounded(streams),
                        0 <= j < frontier@.len(),
                        *f == frontier@[j as int],
                        pos_sum(f@.1) >= depth,
                        self.configs().contains(f@),
                        filtered_valid(aut, streams, f@),
                        forall|i: int| 0 <= i < succs@.len() ==> filtered_successor(aut, streams, f@, #[trigger] succs@[i]@),
                        forall|i: int| 0 <= i < succs@.len() ==> filtered_valid(aut, streams, #[trigger] succs@[i]@),
                        forall|i: int| 0 <= i < k ==> #[trigger] self.configs().contains(succs@[i]@),
                        forall|c: ConfigView| start.contains(c) ==> #[trigger] self.configs().contains(c),
                        forall|d: ConfigView| #[trigger] self.configs().contains(d) ==> filtered_derivable(aut, streams, start, d),
                        forall|i: int| 0 <= i < frontier@.len() ==> #[trigger] self.configs().contains(frontier@[i]@),
                        forall|i: int| 0 <= i < next@.len() ==> #[trigger] self.configs().contains(next@[i]@),
                        forall|i: int| 0 <= i < next@.len() ==> pos_sum(#[trigger] next@[i]@.1) >= depth + 1,
                        forall|d: ConfigView| #[trigger] self.configs().contains(d) ==> filtered_present_from(frontier@, j as int, d)
                            || filtered_present_from(next@, 0, d) || filtered_closed_at(aut, streams, self.configs(), d),
                {
                    let s = &succs[k];
                    if !contains_filtered_configuration(&self.current_configurations, s) {
                        let c1 = s.duplicate(s.current_state);
                        let c2 = s.duplicate(s.current_state);
                        let ghost old_cfgs = self.current_configurations@;
                        let ghost old_cv = self.configs();
                        let ghost old_next = next@;
                        proof {
                            lemma_filtered_successor_sum(aut, streams, f@, s@);
                            let (c0, n0) = choose|c0: ConfigView, n0: nat| start.contains(c0) && #[trigger] filtered_derives(aut, streams, c0, f@, n0);
                            lemma_filtered_derives_extend(aut, streams, c0, f@, s@, n0);
                            assert(filtered_derivable(aut, streams, start, s@));
                            assert(!old_cv.contains(s@)) by {
                                if old_cv.contains(s@) {
                                    let i = choose|i: int| 0 <= i < old_cv.len() && old_cv[i] == s@;
                                    assert(old_cfgs[i]@ == s@);
                                }
                            }
                        }
                        self.current_configurations.push(c1);
                        next.push(c2);
                        proof {
                            self.lemma_filtered_configs_push(old_cfgs, c1);
                            lemma_push_contains(old_cv, s@);
                            lemma_filtered_closed_push(aut, streams, old_cv, s@);
                            assert(next@[next@.len() - 1]@ == s@);
                            assert forall|d: ConfigView| #[trigger] self.configs().contains(d) implies filtered_present_from(frontier@, j as int, d)
                                || filtered_present_from(next@, 0, d) || filtered_closed_at(aut, streams, self.configs(), d) by {
                                if d == s@ {
                                    assert(filtered_present_from(next@, 0, d));
                                } else {
                                    assert(old_cv.contains(d));
                                    if filtered_present_from(old_next, 0, d) {
                                        let i = choose|i: int| 0 <= i < old_next.len() && #[trigger] old_next[i]@ == d;
                                        assert(next@[i] == old_next[i]);
                                    }
                                }
                            }
                            assert forall|i: int| 0 <= i < next@.len() implies #[trigger] self.configs().contains(next@[i]@) by {
                                if i < old_next.len() {
                                    assert(next@[i] == old_next[i]);
                                    assert(old_cv.contains(old_next[i]@));
                                }
                            }
                            assert forall|i: int| 0 <= i < next@.len() implies pos_sum(#[trigger] next@[i]@.1) >= depth + 1 by {
                                if i < old_next.len() {
                                    assert(next@[i] == old_next[i]);
                                }
                            }
                            assert forall|i: int| 0 <= i < self.configs().len() implies filtered_valid(aut, streams, #[trigger] self.configs()[i]) by {
                                if i < old_cv.len() {
                                    assert(self.configs()[i] == old_cv[i]);
                                }
                            }
                            assert forall|a: int, b: int| 0 <= a < b < self.configs().len() implies self.configs()[a] != self.configs()[b] by {
                                if b == old_cv.len() {
                                    assert(old_cv.contains(old_cv[a]));
                                }
                            }
                        }
                    } else {
                        proof {
                            let i = choose|i: int| 0 <= i < self.current_configurations@.len() && #[trigger] self.current_configurations@[i]@ == s@;
                            assert(self.configs()[i] == s@);
                        }
                    }
                }
                proof {
                    assert(filtered_closed_at(aut, streams, self.configs(), f@)) by {
                        assert forall|e: ConfigView| #[trigger] filtered_successor(aut, streams, f@, e) implies self.configs().contains(e) by {
                            let i = choose|i: int| 0 <= i < succs@.len() && #[trigger] succs@[i]@ == e;
                        }
                    }
                    assert forall|d: ConfigView| #[trigger] self.configs().contains(d) implies filtered_present_from(frontier@, j + 1, d)
                        || filtered_present_from(next@, 0, d) || filtered_closed_at(aut, streams, self.configs(), d) by {
                        if filtered_present_from(frontier@, j as int, d) {
                            let i = choose|i: int| j <= i < frontier@.len() && #[trigger] frontier@[i]@ == d;
                            if i == j {
                                assert(d == f@);
                            } else {
                                assert(filtered_present_from(frontier@, j + 1, d));
                            }
                        }
                    }
                }
            }
            proof {
                assert forall|d: ConfigView| #[trigger] self.configs().contains(d) implies filtered_present_from(next@, 0, d)
                    || filtered_closed_at(aut, streams, self.configs(), d) by {
                    if filtered_present_from(frontier@, frontier@.len() as int, d) {
                        let i = choose|i: int| frontier@.len() <= i < frontier@.len() && #[trigger] frontier@[i]@ == d;
                    }
                }
            }
            frontier = next;
            proof {
                depth = depth + 1;
            }
        }
        proof {
            assert forall|d: ConfigView| #[trigger] self.configs().contains(d) implies filtered_closed_at(aut, streams, self.configs(), d) by {
                if filtered_present_from(frontier@, 0, d) {
                    let i = choose|i: int| 0 <= i < frontier@.len() && #[trigger] frontier@[i]@ == d;
                }
            }
        }
        initial_size != self.current_configurations.len()
    }
}

/// Every configuration reached by transitions from a configuration of a
/// closed set belongs to the set.
pub proof fn lemma_filtered_closed_contains_derived(
    aut: Automata<(String, usize)>,
    streams: Seq<Seq<Option<Seq<char>>>>,
    configs: Seq<ConfigView>,
    c: ConfigView,
    d: ConfigView,
    n: nat,
)
    requires
        configs.contains(c),
        forall|x: ConfigView| #[trigger] configs.contains(x) ==> filtered_closed_at(aut, streams, configs, x),
        filtered_derives(aut, streams, c, d, n),
    ensures
        configs.contains(d),
    decreases n,
{
    let path = choose|path: Seq<ConfigView>|
        #![trigger path[0], path[n as int]]
        path.len() == n + 1 && path[0] == c && path[n as int] == d && forall|i: int|
            0 <= i < n ==> #[trigger] filtered_successor_at(aut, streams, path, i);
    if n > 0 {
        let pre = path.subrange(0, n as int);
        assert forall|i: int| 0 <= i < n - 1 implies #[trigger] filtered_successor_at(aut, streams, pre, i) by {
            assert(filtered_successor_at(aut, streams, path, i));
        }
        assert(pre[0] == c && pre[(n - 1) as int] == path[n - 1]);
        lemma_filtered_closed_contains_derived(aut, streams, configs, c, path[n - 1], (n - 1) as nat);
        assert(filtered_successor_at(aut, streams, path, n - 1));
    }
}


impl<'a> FilteredPatternMatchingAutomataRunner<'a> {
    /// Adds, for each initial state, a configuration at that state reading
    /// the given views, for the words of the runner.
    pub fn insert_from_initial_states(&mut self, input_sequence: Vec<ReadableView>)
        requires
            old(self).automaton().wf(),
            old(self).automaton().dimensions == input_sequence@.len(),
        ensures
            final(self).automaton() == old(self).automaton(),
            final(self).word_ids() == old(self).word_ids(),
            forall|c: ConfigView| #[trigger] final(self).configs().contains(c) <==> (old(self).configs().contains(c)
                || exists|i: int| 0 <= i < old(self).automaton().initial_states@.len() && c == (
                    #[trigger] old(self).automaton().initial_states@[i],
                    starts_of(input_sequence@),
                    starts_of(input_sequence@),
                    old(self).word_ids(),
                )),
            (forall|i: int, j: int| 0 <= i < j < old(self).configs().len() ==> old(self).configs()[i] != old(self).configs()[j])
                ==> (forall|i: int, j: int| 0 <= i < j < final(self).configs().len() ==> final(self).configs()[i] != final(self).configs()[j]),
    {
        let ghost aut = self.automaton();
        let ghost ids0 = self.word_ids();
        let ghost init = aut.initial_states@;
        let ghost old_cfgs = self.configs();
        let n = self.automaton.initial_states.len();
        for k in 0..n
            invariant
                self.automaton() == aut,
                self.word_ids() == ids0,
                aut.initial_states@ == init,
                n == init.len(),
                forall|c: ConfigView| #[trigger] self.configs().contains(c) <==> (old_cfgs.contains(c)
                    || exists|i: int| 0 <= i < k && c == (
                        #[trigger] init[i],
                        starts_of(input_sequence@),
                        starts_of(input_sequence@),
                        ids0,
                    )),
                (forall|i: int, j: int| 0 <= i < j < old_cfgs.len() ==> old_cfgs[i] != old_cfgs[j])
                    ==> (forall|i: int, j: int| 0 <= i < j < self.configs().len() ==> self.configs()[i] != self.configs()[j]),
        {
            let q = self.automaton.initial_states[k];
            let config = FilteredPatternMatchingAutomataConfiguration::new(
                q,
                copy_views(&input_sequence),
                copy_positions(&self.ids),
            );
            let ghost before = self.configs();
            let ghost cv = config@;
            self.insert(config);
            proof {
                lemma_push_contains(before, cv);
                assert forall|c: ConfigView| #[trigger] self.configs().contains(c) <==> (old_cfgs.contains(c)
                    || exists|i: int| 0 <= i < k + 1 && c == (
                        #[trigger] init[i],
                        starts_of(input_sequence@),
                        starts_of(input_sequence@),
                        ids0,
                    )) by {
                    if c == cv {
                        assert(c == (init[k as int], starts_of(input_sequence@), starts_of(input_sequence@), ids0));
                    }
                    if exists|i: int| 0 <= i < k + 1 && c == (
                        #[trigger] init[i],
                        starts_of(input_sequence@),
                        starts_of(input_sequence@),
                        ids0,
                    ) {
                        let i = choose|i: int| 0 <= i < k + 1 && c == (
                            #[trigger] init[i],
                            starts_of(input_sequence@),
                            starts_of(input_sequence@),
                            ids0,
                        );
                        if i == k {
                            assert(c == cv);
                        }
                    }
                }
                if !before.contains(cv) {
                    assert forall|a: int, b: int| 0 <= a < b < self.configs().len() && (forall|i: int, j: int| 0 <= i < j < before.len() ==> before[i] != before[j])
                        implies self.configs()[a] != self.configs()[b] by {
                        if b == before.len() {
                            assert(before.contains(before[a]));
                        }
                    }
                }
            }
        }
    }

    /// The configurations at a final state, in order.
    pub fn get_final_configurations(&self) -> (r: Vec<&FilteredPatternMatchingAutomataConfiguration>)
        requires
            self.automaton().wf(),
            forall|j: int| 0 <= j < self.configs().len() ==> (#[trigger] self.configs()[j]).0 < self.automaton().num_states(),
        ensures
            r@.map_values(|c: &FilteredPatternMatchingAutomataConfiguration| c@) == keep_final(self.automaton(), self.configs()),
    {
        let mut r: Vec<&FilteredPatternMatchingAutomataConfiguration> = Vec::new();
        for i in 0..self.current_configurations.len()
            invariant
                self.automaton().wf(),
                forall|j: int| 0 <= j < self.configs().len() ==> (#[trigger] self.configs()[j]).0 < self.automaton().num_states(),
                r@.map_values(|c: &FilteredPatternMatchingAutomataConfiguration| c@) == keep_final(self.automaton(), self.configs().subrange(0, i as int)),
        {
            let c = &self.current_configurations[i];
            proof {
                assert(self.configs()[i as int] == c@);
                assert(self.configs().subrange(0, i + 1).drop_last() =~= self.configs().subrange(0, i as int));
            }
            let ghost before = r@;
            if c.is_final(self.automaton) {
                r.push(c);
                assert(r@.map_values(|c: &FilteredPatternMatchingAutomataConfiguration| c@) =~= before.map_values(|c: &FilteredPatternMatchingAutomataConfiguration| c@).push(c@));
            }
        }
        assert(self.configs().subrange(0, self.configs().len() as int) =~= self.configs());
        r
    }

    /// Removes the configurations that are not waiting for more input.
    pub fn remove_non_waiting_configurations(&mut self, sequences: &Vec<&AppendOnlySequence<Option<String>>>)
        requires
            forall|j: int| 0 <= j < old(self).configs().len() ==> (#[trigger] old(self).configs()[j]).1.len() <= sequences@.len(),
        ensures
            final(self).automaton() == old(self).automaton(),
            final(self).word_ids() == old(self).word_ids(),
            final(self).configs() == keep_filtered_waiting(sequences@, old(self).configs()),
    {
        let ghost cs0 = self.configs();
        let mut rest: Vec<FilteredPatternMatchingAutomataConfiguration> = Vec::new();
        std::mem::swap(&mut rest, &mut self.current_configurations);
        assert(filtered_views_of(rest@) == cs0);
        while rest.len() > 0
            invariant
                filtered_views_of(rest@) == cs0.subrange(cs0.len() - rest@.len(), cs0.len() as int),
                rest@.len() <= cs0.len(),
                self.configs() == keep_filtered_waiting(sequences@, cs0.subrange(0, cs0.len() - rest@.len())),
                forall|j: int| 0 <= j < cs0.len() ==> (#[trigger] cs0[j]).1.len() <= sequences@.len(),
                self.automaton() == old(self).automaton(),
                self.word_ids() == old(self).word_ids(),
            decreases rest@.len(),
        {
            let ghost i = cs0.len() - rest@.len();
            let ghost old_rest = rest@;
            let c = rest.remove(0);
            proof {
                assert(filtered_views_of(old_rest)[0] == cs0.subrange(i, cs0.len() as int)[0]);
                assert(c@ == cs0[i]);
                assert forall|k: int| 0 <= k < rest@.len() implies filtered_views_of(rest@)[k] == cs0.subrange(i + 1, cs0.len() as int)[k] by {
                    assert(rest@[k] == old_rest[k + 1]);
                    assert(filtered_views_of(old_rest)[k + 1] == cs0.subrange(i, cs0.len() as int)[k + 1]);
                }
                assert(cs0.subrange(0, i + 1).drop_last() =~= cs0.subrange(0, i));
                assert(filtered_views_of(rest@) =~= cs0.subrange(i + 1, cs0.len() as int));
                assert(c@.1.len() == c.input_sequence@.len());
            }
            if c.is_waiting(sequences) {
                let ghost before = self.current_configurations@;
                self.current_configurations.push(c);
                proof {
                    self.lemma_filtered_configs_push(before, c);
                }
            }
        }
        assert(cs0.subrange(0, cs0.len() as int) =~= cs0);
    }

    /// Removes the configurations whose next element in some dimension is
    /// masked.
    pub fn remove_masked_configurations(&mut self, sequences: &Vec<&AppendOnlySequence<Option<String>>>)
        requires
            forall|j: int| 0 <= j < old(self).configs().len() ==> (#[trigger] old(self).configs()[j]).1.len() <= sequences@.len(),
        ensures
            final(self).automaton() == old(self).automaton(),
            final(self).word_ids() == old(self).word_ids(),
            final(self).configs() == drop_filtered_masked(filtered_streams_of(sequences@), old(self).configs()),
    {
        let ghost cs0 = self.configs();
        let ghost streams = filtered_streams_of(sequences@);
        let mut rest: Vec<FilteredPatternMatchingAutomataConfiguration> = Vec::new();
        std::mem::swap(&mut rest, &mut self.current_configurations);
        assert(filtered_views_of(rest@) == cs0);
        while rest.len() > 0
            invariant
                streams == filtered_streams_of(sequences@),
                filtered_views_of(rest@) == cs0.subrange(cs0.len() - rest@.len(), cs0.len() as int),
                rest@.len() <= cs0.len(),
                self.configs() == drop_filtered_masked(streams, cs0.subrange(0, cs0.len() - rest@.len())),
                forall|j: int| 0 <= j < cs0.len() ==> (#[trigger] cs0[j]).1.len() <= sequences@.len(),
                self.automaton() == old(self).automaton(),
                self.word_ids() == old(self).word_ids(),
            decreases rest@.len(),
        {
            let ghost i = cs0.len() - rest@.len();
            let ghost old_rest = rest@;
            let c = rest.remove(0);
            proof {
                assert(filtered_views_of(old_rest)[0] == cs0.subrange(i, cs0.len() as int)[0]);
                assert(c@ == cs0[i]);
                assert forall|k: int| 0 <= k < rest@.len() implies filtered_views_of(rest@)[k] == cs0.subrange(i + 1, cs0.len() as int)[k] by {
                    assert(rest@[k] == old_rest[k + 1]);
                    assert(filtered_views_of(old_rest)[k + 1] == cs0.subrange(i, cs0.len() as int)[k + 1]);
                }
                assert(cs0.subrange(0, i + 1).drop_last() =~= cs0.subrange(0, i));
                assert(filtered_views_of(rest@) =~= cs0.subrange(i + 1, cs0.len() as int));
                assert(c@.1.len() == c.input_sequence@.len());
            }
            if !c.is_masked(sequences) {
                let ghost before = self.current_configurations@;
                self.current_configurations.push(c);
                proof {
                    self.lemma_filtered_configs_push(before, c);
                }
            }
        }
        assert(cs0.subrange(0, cs0.len() as int) =~= cs0);
    }
}

/// The configurations of `cs` that are waiting, in order.
pub open spec fn keep_filtered_waiting(sequences: Seq<&AppendOnlySequence<Option<String>>>, cs: Seq<ConfigView>) -> Seq<ConfigView>
    decreases cs.len(),
{
    if cs.len() == 0 {
        cs
    } else {
        let rest = keep_filtered_waiting(sequences, cs.drop_last());
        if filtered_waiting(sequences, cs.last()) {
            rest.push(cs.last())
        } else {
            rest
        }
    }
}

/// The configurations of `cs` with no masked next element, in order.
pub open spec fn drop_filtered_masked(streams: Seq<Seq<Option<Seq<char>>>>, cs: Seq<ConfigView>) -> Seq<ConfigView>
    decreases cs.len(),
{
    if cs.len() == 0 {
        cs
    } else {
        let rest = drop_filtered_masked(streams, cs.drop_last());
        if !filtered_masked(streams, cs.last()) {
            rest.push(cs.last())
        } else {
            rest
        }
    }
}

/// Configurations derived from `c` keep the positions where the matching
/// began, the words, and the number of dimensions.
pub proof fn lemma_filtered_derives_keeps(
    aut: Automata<(String, usize)>,
    streams: Seq<Seq<Option<Seq<char>>>>,
    c: ConfigView,
    d: ConfigView,
    n: nat,
)
    requires
        filtered_derives(aut, streams, c, d, n),
    ensures
        d.1.len() == c.1.len(),
        d.2 == c.2,
        d.3 == c.3,
    decreases n,
{
    let path = choose|path: Seq<ConfigView>|
        #![trigger path[0], path[n as int]]
        path.len() == n + 1 && path[0] == c && path[n as int] == d && forall|i: int|
            0 <= i < n ==> #[trigger] filtered_successor_at(aut, streams, path, i);
    if n > 0 {
        let pre = path.subrange(0, n as int);
        assert forall|i: int| 0 <= i < n - 1 implies #[trigger] filtered_successor_at(aut, streams, pre, i) by {
            assert(filtered_successor_at(aut, streams, path, i));
        }
        assert(pre[0] == c && pre[(n - 1) as int] == path[n - 1]);
        lemma_filtered_derives_keeps(aut, streams, c, path[n - 1], (n - 1) as nat);
        assert(filtered_successor_at(aut, streams, path, n - 1));
        let e = path[n - 1];
        let k = choose|k: int|
            0 <= k < aut.trans(e.0 as int).len() && #[trigger] filtered_step(streams, e, aut.trans(e.0 as int)[k]) == Some(d);
    }
}

/// The configurations kept are those of the list that wait, and they stay
/// pairwise different.
pub proof fn lemma_keep_filtered_waiting(sequences: Seq<&AppendOnlySequence<Option<String>>>, cs: Seq<ConfigView>)
    ensures
        forall|x: ConfigView| #[trigger] keep_filtered_waiting(sequences, cs).contains(x) <==> (cs.contains(x)
            && filtered_waiting(sequences, x)),
        (forall|i: int, j: int| 0 <= i < j < cs.len() ==> cs[i] != cs[j]) ==> (forall|i: int, j: int|
            0 <= i < j < keep_filtered_waiting(sequences, cs).len() ==> keep_filtered_waiting(sequences, cs)[i]
                != keep_filtered_waiting(sequences, cs)[j]),
    decreases cs.len(),
{
    if cs.len() > 0 {
        let pre = cs.drop_last();
        lemma_keep_filtered_waiting(sequences, pre);
        let rest = keep_filtered_waiting(sequences, pre);
        lemma_push_contains(rest, cs.last());
        lemma_push_contains(pre, cs.last());
        assert(cs =~= pre.push(cs.last()));
        if forall|i: int, j: int| 0 <= i < j < cs.len() ==> cs[i] != cs[j] {
            assert(!pre.contains(cs.last())) by {
                if pre.contains(cs.last()) {
                    let i = choose|i: int| 0 <= i < pre.len() && pre[i] == cs.last();
                    assert(cs[i] == cs[cs.len() - 1]);
                }
            }
            assert forall|i: int, j: int| 0 <= i < j < pre.len() implies pre[i] != pre[j] by {
                assert(pre[i] == cs[i] && pre[j] == cs[j]);
            }
            if filtered_waiting(sequences, cs.last()) {
                let k = keep_filtered_waiting(sequences, cs);
                assert forall|i: int, j: int| 0 <= i < j < k.len() implies k[i] != k[j] by {
                    if j == k.len() - 1 {
                        assert(rest.contains(k[i]));
                    } else {
                        assert(k[i] == rest[i] && k[j] == rest[j]);
                    }
                }
            }
        }
    }
}

/// The configurations kept are those of the list with no masked next
/// element, and they stay pairwise different.
pub proof fn lemma_drop_filtered_masked(streams: Seq<Seq<Option<Seq<char>>>>, cs: Seq<ConfigView>)
    ensures
        forall|x: ConfigView| #[trigger] drop_filtered_masked(streams, cs).contains(x) <==> (cs.contains(x)
            && !filtered_masked(streams, x)),
        (forall|i: int, j: int| 0 <= i < j < cs.len() ==> cs[i] != cs[j]) ==> (forall|i: int, j: int|
            0 <= i < j < drop_filtered_masked(streams, cs).len() ==> drop_filtered_masked(streams, cs)[i]
                != drop_filtered_masked(streams, cs)[j]),
    decreases cs.len(),
{
    if cs.len() > 0 {
        let pre = cs.drop_last();
        lemma_drop_filtered_masked(streams, pre);
        let rest = drop_filtered_masked(streams, pre);
        lemma_push_contains(rest, cs.last());
        lemma_push_contains(pre, cs.last());
        assert(cs =~= pre.push(cs.last()));
        if forall|i: int, j: int| 0 <= i < j < cs.len() ==> cs[i] != cs[j] {
            assert(!pre.contains(cs.last())) by {
                if pre.contains(cs.last()) {
                    let i = choose|i: int| 0 <= i < pre.len() && pre[i] == cs.last();
                    assert(cs[i] == cs[cs.len() - 1]);
                }
            }
            assert forall|i: int, j: int| 0 <= i < j < pre.len() implies pre[i] != pre[j] by {
                assert(pre[i] == cs[i] && pre[j] == cs[j]);
            }
            if !filtered_masked(streams, cs.last()) {
                let k = drop_filtered_masked(streams, cs);
                assert forall|i: int, j: int| 0 <= i < j < k.len() implies k[i] != k[j] by {
                    if j == k.len() - 1 {
                        assert(rest.contains(k[i]));
                    } else {
                        assert(k[i] == rest[i] && k[j] == rest[j]);
                    }
                }
            }
        }
    }
}

/// A configuration valid for some streams stays valid when they grow.
pub proof fn lemma_filtered_valid_extend(
    aut: Automata<(String, usize)>,
    streams: Seq<Seq<Option<Seq<char>>>>,
    streams2: Seq<Seq<Option<Seq<char>>>>,
    c: ConfigView,
)
    requires
        filtered_valid(aut, streams, c),
        streams2.len() == streams.len(),
        forall|i: int| 0 <= i < streams.len() ==> #[trigger] streams[i].len() <= streams2[i].len(),
    ensures
        filtered_valid(aut, streams2, c),
{
    assert forall|i: int| 0 <= i < c.1.len() implies #[trigger] c.1[i] <= streams2[i].len() by {
        assert(c.1[i] <= streams[i].len());
    }
}

} // verus!
