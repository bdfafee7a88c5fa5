use vstd::prelude::*;
use crate::automata::{Automata, Transition};
use crate::sequence::{AppendOnlySequence, ReadableView};
use crate::label::{ValidLabel, lemma_push_contains};
use crate::hyper_pattern_matching::{
    streams_of, streams_bounded, lemma_streams_bounded, starts_of, copy_views, same_views, pos_sum,
    lemma_pos_sum_increment, lemma_pos_sum_bound,
};

verus! {

/// A configuration as a value: the automaton state and the reading position
/// in each dimension.
pub type SimpleView = (usize, Seq<usize>);

/// The configuration reached from `c` by the transition `t`, if `t` reads
/// the next letter of the stream of its variable (the `i`-th stream is read
/// in dimension `i`).
pub open spec fn simple_step(
    streams: Seq<Seq<Seq<char>>>,
    c: SimpleView,
    t: Transition<(String, usize)>,
) -> Option<SimpleView> {
    let var = t.label.1 as int;
    if var < c.1.len() && var < streams.len() && c.1[var] < streams[var].len() && streams[var][c.1[var] as int]
        == t.label.0@ {
        Some((t.next_state, c.1.update(var, (c.1[var] + 1) as usize)))
    } else {
        None
    }
}

/// `d` is reached from `c` by one transition of `aut`.
pub open spec fn simple_successor(
    aut: Automata<(String, usize)>,
    streams: Seq<Seq<Seq<char>>>,
    c: SimpleView,
    d: SimpleView,
) -> bool {
    exists|k: int|
        0 <= k < aut.trans(c.0 as int).len() && #[trigger] simple_step(streams, c, aut.trans(c.0 as int)[k])
            == Some(d)
}

/// `c` fits `aut` and the streams: its state exists, it has one position
/// per variable, and each position lies within the stream of its dimension.
pub open spec fn simple_valid(
    aut: Automata<(String, usize)>,
    streams: Seq<Seq<Seq<char>>>,
    c: SimpleView,
) -> bool {
    &&& c.0 < aut.num_states()
    &&& c.1.len() == aut.dimensions
    &&& aut.dimensions <= streams.len()
    &&& forall|i: int| 0 <= i < c.1.len() ==> #[trigger] c.1[i] <= streams[i].len()
}

/// A configuration of an automaton run over streams: the current state and
/// a view per variable on the stream of that dimension.
#[derive(Debug, PartialEq, Eq, Hash)]
pub struct SimpleAutomataConfiguration {
    /// The current state of the automaton.
    pub current_state: usize,
    /// The reading position in each dimension.
    pub input_sequence: Vec<ReadableView>,
}

impl View for SimpleAutomataConfiguration {
    type V = SimpleView;

    open spec fn view(&self) -> SimpleView {
        (self.current_state, starts_of(self.input_sequence@))
    }
}

impl SimpleAutomataConfiguration {
    /// Creates a configuration at `current_state` reading the given views.
    pub fn new(current_state: usize, input_sequence: Vec<ReadableView>) -> (r: Self)
        ensures
            r@ == (current_state, starts_of(input_sequence@)),
    {
        Self { current_state, input_sequence }
    }

    /// Whether the current state accepts.
    pub fn is_final(&self, automaton: &Automata<(String, usize)>) -> (r: bool)
        requires
            self.current_state < automaton.num_states(),
        ensures
            r == automaton.final_at(self.current_state as int),
    {
        automaton.states[self.current_state].is_final
    }

    /// The number of variables.
    pub fn dimensions(&self) -> (r: usize)
        ensures
            r == self.input_sequence@.len(),
    {
        self.input_sequence.len()
    }

    /// The transitions leaving the current state.
    pub fn transitions<'b>(&self, automaton: &'b Automata<(String, usize)>) -> (r: &'b Vec<Transition<(String, usize)>>)
        requires
            self.current_state < automaton.num_states(),
        ensures
            r@ == automaton.trans(self.current_state as int),
    {
        &automaton.states[self.current_state].transitions
    }

    /// A copy of the configuration at `current_state`.
    pub fn duplicate(&self, current_state: usize) -> (r: Self)
        ensures
            r@ == (current_state, self@.1),
    {
        Self { current_state, input_sequence: copy_views(&self.input_sequence) }
    }

    /// Tells whether two configurations are equal.
    pub fn same_configuration(&self, other: &Self) -> (r: bool)
        ensures
            r == (self@ == other@),
    {
        self.current_state == other.current_state && same_views(&self.input_sequence, &other.input_sequence)
    }

    /// The next letter of the `i`-th view, if there is one.
    pub fn input_head(&self, sequences: &Vec<AppendOnlySequence<String>>, i: usize) -> (r: Option<String>)
        requires
            self.input_sequence@.len() <= sequences@.len(),
        ensures
            match r {
                Some(h) => i < self.input_sequence@.len() && self.input_sequence@[i as int].start < sequences@[i as int].items().len()
                    && streams_of(sequences@)[i as int][self.input_sequence@[i as int].start as int] == h@,
                None => i >= self.input_sequence@.len() || self.input_sequence@[i as int].start >= sequences@[i as int].items().len(),
            },
    {
        if i < self.input_sequence.len() {
            let s = &sequences[i];
            assert(streams_of(sequences@)[i as int] == s.items_deep());
            match s.get(self.input_sequence[i].start) {
                Some(h) => Some(h.clone()),
                None => None,
            }
        } else {
            None
        }
    }

    /// Moves the `i`-th view forward by `count` letters, stopping at the end
    /// of its stream.
    pub fn input_advance(&mut self, sequences: &Vec<AppendOnlySequence<String>>, i: usize, count: usize)
        requires
            old(self).input_sequence@.len() <= sequences@.len(),
        ensures
            final(self).current_state == old(self).current_state,
            final(self).input_sequence@.len() == old(self).input_sequence@.len(),
            forall|k: int| 0 <= k < old(self).input_sequence@.len() && k != i ==> final(self).input_sequence@[k] == old(self).input_sequence@[k],
            i < old(self).input_sequence@.len() ==> final(self).input_sequence@[i as int].start == if old(self).input_sequence@[i as int].start + count < sequences@[i as int].items().len() {
                (old(self).input_sequence@[i as int].start + count) as int
            } else {
                sequences@[i as int].items().len() as int
            },
    {
        if i < self.input_sequence.len() {
            let mut v = self.input_sequence[i];
            v.advance_readable(&sequences[i], count);
            self.input_sequence.set(i, v);
        }
    }
}

/// Whether some configuration of `v` equals `c`.
pub fn contains_simple_configuration(
    v: &Vec<SimpleAutomataConfiguration>,
    c: &SimpleAutomataConfiguration,
) -> (r: bool)
    ensures
        r == exists|j: int| 0 <= j < v@.len() && #[trigger] v@[j]@ == c@,
{
    for j in 0..v.len()
        invariant
            forall|k: int| 0 <= k < j ==> #[trigger] v@[k]@ != c@,
    {
        if v[j].same_configuration(c) {
            return true;
        }
    }
    false
}

impl SimpleAutomataConfiguration {
    /// The configurations reached from this one by one transition of
    /// `automaton`, each once: a transition labelled (`a`, `x`) applies when
    /// the next letter of the view of `x` is `a`, and moves that view one
    /// letter forward.
    pub fn successors(
        &self,
        automaton: &Automata<(String, usize)>,
        sequences: &Vec<AppendOnlySequence<String>>,
    ) -> (r: Vec<Self>)
        requires
            automaton.wf(),
            simple_valid(*automaton, streams_of(sequences@), self@),
        ensures
            forall|j: int| 0 <= j < r@.len() ==> simple_successor(*automaton, streams_of(sequences@), self@, #[trigger] r@[j]@),
            forall|j: int| 0 <= j < r@.len() ==> simple_valid(*automaton, streams_of(sequences@), #[trigger] r@[j]@),
            forall|d: SimpleView| simple_successor(*automaton, streams_of(sequences@), self@, d) ==> exists|j: int|
                0 <= j < r@.len() && #[trigger] r@[j]@ == d,
            forall|i: int, j: int| 0 <= i < j < r@.len() ==> r@[i]@ != r@[j]@,
    {
        let ghost streams = streams_of(sequences@);
        let ts = self.transitions(automaton);
        assert(self.input_sequence@.len() == starts_of(self.input_sequence@).len());
        let mut r: Vec<Self> = Vec::new();
        for k in 0..ts.len()
            invariant
                automaton.wf(),
                streams == streams_of(sequences@),
                simple_valid(*automaton, streams, self@),
                self.input_sequence@.len() == automaton.dimensions,
                ts@ == automaton.trans(self.current_state as int),
                forall|j: int| 0 <= j < r@.len() ==> simple_successor(*automaton, streams, self@, #[trigger] r@[j]@),
                forall|j: int| 0 <= j < r@.len() ==> simple_valid(*automaton, streams, #[trigger] r@[j]@),
                forall|k2: int| 0 <= k2 < k && simple_step(streams, self@, #[trigger] ts@[k2]) is Some ==> exists|j: int|
                    0 <= j < r@.len() && #[trigger] r@[j]@ == simple_step(streams, self@, ts@[k2])->0,
                forall|i: int, j: int| 0 <= i < j < r@.len() ==> r@[i]@ != r@[j]@,
        {
            let t = &ts[k];
            let var = t.label.1;
            let ghost old_r = r@;
            proof {
                assert(automaton.trans(self.current_state as int)[k as int].next_state < automaton.num_states());
                assert(automaton.trans(self.current_state as int)[k as int].label.valid_for(automaton.dimensions as nat));
            }
            let head = self.input_head(sequences, var);
            match head {
                Some(h) => {
                    if h == t.label.0 {
                        let mut s = self.duplicate(t.next_state);
                        s.input_advance(sequences, var, 1);
                        proof {
                            assert(self@.1[var as int] == self.input_sequence@[var as int].start);
                            assert(simple_step(streams, self@, ts@[k as int]) is Some);
                            assert(s@.1 =~= self@.1.update(var as int, (self@.1[var as int] + 1) as usize));
                            assert(s@ == simple_step(streams, self@, ts@[k as int])->0);
                            assert(simple_successor(*automaton, streams, self@, s@));
                            assert forall|i: int| 0 <= i < s@.1.len() implies #[trigger] s@.1[i] <= streams[i].len() by {
                                assert(self@.1[i] <= streams[i].len());
                            }
                        }
                        let ghost sv = s@;
                        if !contains_simple_configuration(&r, &s) {
                            r.push(s);
                            proof {
                                assert(r@[r@.len() - 1]@ == sv);
                            }
                        }
                    } else {
                        proof {
                            assert(self@.1[var as int] == self.input_sequence@[var as int].start);
                            assert(simple_step(streams, self@, ts@[k as int]) is None);
                        }
                    }
                },
                None => {
                    proof {
                        if var < self@.1.len() {
                            assert(self@.1[var as int] == self.input_sequence@[var as int].start);
                        }
                        assert(simple_step(streams, self@, ts@[k as int]) is None);
                    }
                },
            }
            proof {
                assert forall|k2: int| 0 <= k2 < k + 1 && simple_step(streams, self@, #[trigger] ts@[k2]) is Some implies exists|j: int|
                    0 <= j < r@.len() && #[trigger] r@[j]@ == simple_step(streams, self@, ts@[k2])->0 by {
                    if k2 < k {
                        let j = choose|j: int| 0 <= j < old_r.len() && #[trigger] old_r[j]@ == simple_step(streams, self@, ts@[k2])->0;
                        assert(r@[j] == old_r[j]);
                    }
                }
            }
        }
        proof {
            assert forall|d: SimpleView| simple_successor(*automaton, streams, self@, d) implies exists|j: int|
                0 <= j < r@.len() && #[trigger] r@[j]@ == d by {
                let k2 = choose|k2: int|
                    0 <= k2 < automaton.trans(self@.0 as int).len() && #[trigger] simple_step(streams, self@, automaton.trans(self@.0 as int)[k2]) == Some(d);
                assert(simple_step(streams, self@, ts@[k2]) is Some);
            }
        }
        r
    }
}

/// The views of a list of configurations.
pub open spec fn simple_views_of(v: Seq<SimpleAutomataConfiguration>) -> Seq<SimpleView> {
    v.map_values(|c: SimpleAutomataConfiguration| c@)
}

/// The `i`-th configuration of `path` is followed by a successor.
pub open spec fn simple_successor_at(
    aut: Automata<(String, usize)>,
    streams: Seq<Seq<Seq<char>>>,
    path: Seq<SimpleView>,
    i: int,
) -> bool {
    simple_successor(aut, streams, path[i], path[i + 1])
}

/// `d` is reached from `c` by `n` transitions.
pub open spec fn simple_derives(
    aut: Automata<(String, usize)>,
    streams: Seq<Seq<Seq<char>>>,
    c: SimpleView,
    d: SimpleView,
    n: nat,
) -> bool {
    exists|path: Seq<SimpleView>|
        #![trigger path[0], path[n as int]]
        path.len() == n + 1 && path[0] == c && path[n as int] == d && forall|i: int|
            0 <= i < n ==> #[trigger] simple_successor_at(aut, streams, path, i)
}

/// `d` is reached by transitions from some configuration of `start`.
pub open spec fn simple_derivable(
    aut: Automata<(String, usize)>,
    streams: Seq<Seq<Seq<char>>>,
    start: Seq<SimpleView>,
    d: SimpleView,
) -> bool {
    exists|c: SimpleView, n: nat| start.contains(c) && #[trigger] simple_derives(aut, streams, c, d, n)
}

/// Every successor of `x` is among `configs`.
pub open spec fn simple_closed_at(
    aut: Automata<(String, usize)>,
    streams: Seq<Seq<Seq<char>>>,
    configs: Seq<SimpleView>,
    x: SimpleView,
) -> bool {
    forall|e: SimpleView| #[trigger] simple_successor(aut, streams, x, e) ==> configs.contains(e)
}

/// The length of the longest stream.
pub open spec fn simple_max_len(streams: Seq<Seq<Seq<char>>>) -> nat
    decreases streams.len(),
{
    if streams.len() == 0 {
        0
    } else {
        let m = simple_max_len(streams.drop_last());
        if streams.last().len() > m {
            streams.last().len()
        } else {
            m
        }
    }
}

proof fn lemma_simple_max_len(streams: Seq<Seq<Seq<char>>>, i: int)
    requires
        0 <= i < streams.len(),
    ensures
        streams[i].len() <= simple_max_len(streams),
    decreases streams.len(),
{
    if i < streams.len() - 1 {
        lemma_simple_max_len(streams.drop_last(), i);
    }
}

/// A successor has read one letter more than its predecessor.
proof fn lemma_simple_successor_sum(
    aut: Automata<(String, usize)>,
    streams: Seq<Seq<Seq<char>>>,
    c: SimpleView,
    d: SimpleView,
)
    requires
        aut.wf(),
        streams_bounded(streams),
        simple_valid(aut, streams, c),
        simple_successor(aut, streams, c, d),
    ensures
        pos_sum(d.1) == pos_sum(c.1) + 1,
        simple_valid(aut, streams, d),
{
    let k = choose|k: int|
        0 <= k < aut.trans(c.0 as int).len() && #[trigger] simple_step(streams, c, aut.trans(c.0 as int)[k]) == Some(d);
    let t = aut.trans(c.0 as int)[k];
    let var = t.label.1 as int;
    assert(t.next_state < aut.num_states());
    assert(streams[var].len() <= usize::MAX);
    lemma_pos_sum_increment(c.1, var);
    assert forall|i: int| 0 <= i < d.1.len() implies #[trigger] d.1[i] <= streams[i].len() by {
        assert(c.1[i] <= streams[i].len());
    }
}

/// The positions of a valid configuration sum to at most `dimensions`
/// times the longest stream.
proof fn lemma_simple_valid_sum_bound(aut: Automata<(String, usize)>, streams: Seq<Seq<Seq<char>>>, c: SimpleView)
    requires
        simple_valid(aut, streams, c),
    ensures
        0 <= pos_sum(c.1) <= aut.dimensions * simple_max_len(streams),
{
    assert forall|i: int| 0 <= i < c.1.len() implies c.1[i] <= simple_max_len(streams) by {
        assert(c.1[i] <= streams[i].len());
        lemma_simple_max_len(streams, i);
    }
    lemma_pos_sum_bound(c.1, simple_max_len(streams));
}

/// A configuration derives itself, and derivations extend by successors.
proof fn lemma_simple_derives_extend(
    aut: Automata<(String, usize)>,
    streams: Seq<Seq<Seq<char>>>,
    c: SimpleView,
    d: SimpleView,
    e: SimpleView,
    n: nat,
)
    requires
        simple_derives(aut, streams, c, d, n),
        simple_successor(aut, streams, d, e),
    ensures
        simple_derives(aut, streams, c, e, n + 1),
{
    let path = choose|path: Seq<SimpleView>|
        #![trigger path[0], path[n as int]]
        path.len() == n + 1 && path[0] == c && path[n as int] == d && forall|i: int|
            0 <= i < n ==> #[trigger] simple_successor_at(aut, streams, path, i);
    let ext = path.push(e);
    assert forall|i: int| 0 <= i < n + 1 implies #[trigger] simple_successor_at(aut, streams, ext, i) by {
        if i < n {
            assert(simple_successor_at(aut, streams, path, i));
        }
    }
    assert(ext[0] == c && ext[(n + 1) as int] == e);
}

proof fn lemma_simple_derives_refl(aut: Automata<(String, usize)>, streams: Seq<Seq<Seq<char>>>, c: SimpleView)
    ensures
        simple_derives(aut, streams, c, c, 0),
{
    let path = seq![c];
    assert(path[0] == c && path[0int] == c);
}

/// Runs an automaton over streams by keeping the set of its configurations.
pub struct SimpleAutomataRunner<'a> {
    automaton: &'a Automata<(String, usize)>,
    /// The current configurations, each once.
    pub current_configurations: Vec<SimpleAutomataConfiguration>,
}

impl<'a> SimpleAutomataRunner<'a> {
    /// The automaton being run.
    pub closed spec fn automaton(&self) -> Automata<(String, usize)> {
        *self.automaton
    }

    /// The current configurations.
    pub closed spec fn configs(&self) -> Seq<SimpleView> {
        simple_views_of(self.current_configurations@)
    }

    /// The automaton is well formed and the configurations are valid for
    /// the streams and pairwise different.
    pub open spec fn inv(&self, streams: Seq<Seq<Seq<char>>>) -> bool {
        &&& self.automaton().wf()
        &&& forall|j: int| 0 <= j < self.configs().len() ==> simple_valid(self.automaton(), streams, #[trigger] self.configs()[j])
        &&& forall|i: int, j: int| 0 <= i < j < self.configs().len() ==> self.configs()[i] != self.configs()[j]
    }

    /// A runner for `automaton` with a configuration at each initial state
    /// reading the views `input_sequence`.
    pub fn new(automaton: &'a Automata<(String, usize)>, input_sequence: Vec<ReadableView>) -> (r: Self)
        requires
            automaton.wf(),
            automaton.dimensions == input_sequence@.len(),
        ensures
            r.automaton() == *automaton,
            forall|c: SimpleView| #[trigger] r.configs().contains(c) <==> exists|i: int|
                0 <= i < automaton.initial_states@.len() && c == (#[trigger] automaton.initial_states@[i], starts_of(input_sequence@)),
            forall|i: int, j: int| 0 <= i < j < r.configs().len() ==> r.configs()[i] != r.configs()[j],
    {
        let mut r = Self { automaton, current_configurations: Vec::new() };
        assert(r.configs() =~= Seq::<SimpleView>::empty());
        r.insert_from_initial_states(input_sequence);
        r
    }

    /// Whether the automaton has an initial state.
    pub fn has_initial_states(&self) -> (r: bool)
        ensures
            r == (self.automaton().initial_states@.len() > 0),
    {
        self.automaton.initial_states.len() > 0
    }

    /// The number of configurations.
    pub fn len(&self) -> (r: usize)
        ensures
            r == self.configs().len(),
    {
        self.current_configurations.len()
    }

    /// The `j`-th current configuration.
    pub fn configuration_at(&self, j: usize) -> (r: &SimpleAutomataConfiguration)
        requires
            j < self.configs().len(),
        ensures
            r@ == self.configs()[j as int],
    {
        &self.current_configurations[j]
    }

    /// Adds a configuration unless an equal one is there already.
    pub fn insert(&mut self, configuration: SimpleAutomataConfiguration)
        ensures
            final(self).automaton() == old(self).automaton(),
            final(self).configs() == if old(self).configs().contains(configuration@) {
                old(self).configs()
            } else {
                old(self).configs().push(configuration@)
            },
    {
        let ghost cv = configuration@;
        if !contains_simple_configuration(&self.current_configurations, &configuration) {
            self.current_configurations.push(configuration);
            assert(self.configs() =~= old(self).configs().push(cv));
        } else {
            proof {
                let j = choose|j: int| 0 <= j < old(self).current_configurations@.len() && #[trigger] old(self).current_configurations@[j]@ == cv;
                assert(old(self).configs()[j] == cv);
            }
        }
        proof {
            if old(self).configs().contains(cv) {
                let j = choose|j: int| 0 <= j < old(self).configs().len() && old(self).configs()[j] == cv;
                assert(old(self).current_configurations@[j]@ == cv);
            }
        }
    }
}

/// Some configuration of `v` at position `lo` or later equals `d`.
pub open spec fn simple_present_from(v: Seq<SimpleAutomataConfiguration>, lo: int, d: SimpleView) -> bool {
    exists|i: int| lo <= i < v.len() && #[trigger] v[i]@ == d
}

/// Adding a configuration keeps every configuration closed.
proof fn lemma_simple_closed_push(
    aut: Automata<(String, usize)>,
    streams: Seq<Seq<Seq<char>>>,
    cs: Seq<SimpleView>,
    y: SimpleView,
)
    ensures
        forall|x: SimpleView| #[trigger] simple_closed_at(aut, streams, cs, x) ==> simple_closed_at(aut, streams, cs.push(y), x),
{
    lemma_push_contains(cs, y);
}

impl<'a> SimpleAutomataRunner<'a> {
    /// The configurations as a list of views, and the same after a push.
    proof fn lemma_simple_configs_push(&self, old_configs: Seq<SimpleAutomataConfiguration>, c: SimpleAutomataConfiguration)
        requires
            self.current_configurations@ == old_configs.push(c),
        ensures
            self.configs() == simple_views_of(old_configs).push(c@),
    {
        assert(self.configs() =~= simple_views_of(old_configs).push(c@));
    }

    /// Adds every configuration reached from the current ones by
    /// transitions over the streams, until no new configuration appears.
    pub fn consume(&mut self, sequences: &Vec<AppendOnlySequence<String>>) -> (changed: bool)
        requires
            old(self).inv(streams_of(sequences@)),
        ensures
            final(self).inv(streams_of(sequences@)),
            final(self).automaton() == old(self).automaton(),
            changed == (final(self).configs().len() != old(self).configs().len()),
            forall|c: SimpleView| old(self).configs().contains(c) ==> #[trigger] final(self).configs().contains(c),
            forall|d: SimpleView| #[trigger] final(self).configs().contains(d) ==> simple_derivable(
                final(self).automaton(),
                streams_of(sequences@),
                old(self).configs(),
                d,
            ),
            forall|d: SimpleView| #[trigger] final(self).configs().contains(d) ==> simple_closed_at(
                final(self).automaton(),
                streams_of(sequences@),
                final(self).configs(),
                d,
            ),
    {
        let ghost streams = streams_of(sequences@);
        let ghost start = self.configs();
        let ghost aut = self.automaton();
        let initial_size = self.current_configurations.len();
        proof {
            lemma_streams_bounded(sequences@);
        }
        let ghost bound: int = aut.dimensions * simple_max_len(streams);
        let mut frontier: Vec<SimpleAutomataConfiguration> = Vec::new();
        for i in 0..self.current_configurations.len()
            invariant
                self.configs() == start,
                simple_views_of(frontier@) == start.subrange(0, i as int),
                i <= start.len(),
        {
            let c = &self.current_configurations[i];
            let d = c.duplicate(c.current_state);
            let ghost old_f = frontier@;
            let ghost dv = d@;
            frontier.push(d);
            proof {
                assert(start[i as int] == c@);
                assert(simple_views_of(frontier@) =~= simple_views_of(old_f).push(dv));
                assert(simple_views_of(frontier@) =~= start.subrange(0, i + 1));
            }
        }
        proof {
            assert(simple_views_of(frontier@) =~= start);
            assert forall|d: SimpleView| #[trigger] self.configs().contains(d) implies simple_derivable(aut, streams, start, d) by {
                lemma_simple_derives_refl(aut, streams, d);
            }
            assert forall|d: SimpleView| #[trigger] self.configs().contains(d) implies simple_present_from(frontier@, 0, d) by {
                let i = choose|i: int| 0 <= i < start.len() && start[i] == d;
                assert(frontier@[i]@ == simple_views_of(frontier@)[i]);
            }
            assert forall|j: int| 0 <= j < frontier@.len() implies #[trigger] self.configs().contains(frontier@[j]@) by {
                assert(start[j] == simple_views_of(frontier@)[j]);
            }
            assert forall|j: int| 0 <= j < frontier@.len() implies pos_sum(#[trigger] frontier@[j]@.1) >= 0 by {
                assert(start[j] == simple_views_of(frontier@)[j]);
                assert(simple_valid(aut, streams, start[j]));
                lemma_simple_valid_sum_bound(aut, streams, start[j]);
            }
        }
        let ghost mut depth: int = 0;
        while frontier.len() > 0
            invariant
                self.inv(streams),
                self.automaton() == aut,
                aut.wf(),
                streams == streams_of(sequences@),
                streams_bounded(streams),
                bound == aut.dimensions * simple_max_len(streams),
                0 <= depth <= bound + 1,
                forall|c: SimpleView| start.contains(c) ==> #[trigger] self.configs().contains(c),
                forall|d: SimpleView| #[trigger] self.configs().contains(d) ==> simple_derivable(aut, streams, start, d),
                forall|j: int| 0 <= j < frontier@.len() ==> #[trigger] self.configs().contains(frontier@[j]@),
                forall|j: int| 0 <= j < frontier@.len() ==> pos_sum(#[trigger] frontier@[j]@.1) >= depth,
                forall|d: SimpleView| #[trigger] self.configs().contains(d) ==> simple_present_from(frontier@, 0, d)
                    || simple_closed_at(aut, streams, self.configs(), d),
            decreases bound + 1 - depth,
        {
            proof {
                let f = frontier@[0]@;
                assert(self.configs().contains(f));
                let i = choose|i: int| 0 <= i < self.configs().len() && self.configs()[i] == f;
                assert(simple_valid(aut, streams, self.configs()[i]));
                lemma_simple_valid_sum_bound(aut, streams, f);
            }
            let mut next: Vec<SimpleAutomataConfiguration> = Vec::new();
            for j in 0..frontier.len()
                invariant
                    self.inv(streams),
                    self.automaton() == aut,
                        aut.wf(),
                    streams == streams_of(sequences@),
                    streams_bounded(streams),
                    forall|c: SimpleView| start.contains(c) ==> #[trigger] self.configs().contains(c),
                    forall|d: SimpleView| #[trigger] self.configs().contains(d) ==> simple_derivable(aut, streams, start, d),
                    forall|i: int| 0 <= i < frontier@.len() ==> #[trigger] self.configs().contains(frontier@[i]@),
                    forall|i: int| 0 <= i < frontier@.len() ==> pos_sum(#[trigger] frontier@[i]@.1) >= depth,
                    forall|i: int| 0 <= i < next@.len() ==> #[trigger] self.configs().contains(next@[i]@),
                    forall|i: int| 0 <= i < next@.len() ==> pos_sum(#[trigger] next@[i]@.1) >= depth + 1,
                    forall|d: SimpleView| #[trigger] self.configs().contains(d) ==> simple_present_from(frontier@, j as int, d)
                        || simple_present_from(next@, 0, d) || simple_closed_at(aut, streams, self.configs(), d),
            {
                let f = &frontier[j];
                proof {
                    assert(self.configs().contains(f@));
                    let i = choose|i: int| 0 <= i < self.configs().len() && self.configs()[i] == f@;
                    assert(simple_valid(aut, streams, self.configs()[i]));
                }
                let succs = f.successors(self.automaton, sequences);
                for k in 0..succs.len()
                    invariant
                        self.inv(streams),
                        self.automaton() == aut,
                                aut.wf(),
                        streams == streams_of(sequences@),
                        streams_bounded(streams),
                        0 <= j < frontier@.len(),
                        *f == frontier@[j as int],
                        pos_sum(f@.1) >= depth,
                        self.configs().contains(f@),
                        simple_valid(aut, streams, f@),
                        forall|i: int| 0 <= i < succs@.len() ==> simple_successor(aut, streams, f@, #[trigger] succs@[i]@),
                        forall|i: int| 0 <= i < succs@.len() ==> simple_valid(aut, streams, #[trigger] succs@[i]@),
                        forall|i: int| 0 <= i < k ==> #[trigger] self.configs().contains(succs@[i]@),
                        forall|c: SimpleView| start.contains(c) ==> #[trigger] self.configs().contains(c),
                        forall|d: SimpleView| #[trigger] self.configs().contains(d) ==> simple_derivable(aut, streams, start, d),
                        forall|i: int| 0 <= i < frontier@.len() ==> #[trigger] self.configs().contains(frontier@[i]@),
                        forall|i: int| 0 <= i < next@.len() ==> #[trigger] self.configs().contains(next@[i]@),
                        forall|i: int| 0 <= i < next@.len() ==> pos_sum(#[trigger] next@[i]@.1) >= depth + 1,
                        forall|d: SimpleView| #[trigger] self.configs().contains(d) ==> simple_present_from(frontier@, j as int, d)
                            || simple_present_from(next@, 0, d) || simple_closed_at(aut, streams, self.configs(), d),
                {
                    let s = &succs[k];
                    if !contains_simple_configuration(&self.current_configurations, s) {
                        let c1 = s.duplicate(s.current_state);
                        let c2 = s.duplicate(s.current_state);
                        let ghost old_cfgs = self.current_configurations@;
                        let ghost old_cv = self.configs();
                        let ghost old_next = next@;
                        proof {
                            lemma_simple_successor_sum(aut, streams, f@, s@);
                            let (c0, n0) = choose|c0: SimpleView, n0: nat| start.contains(c0) && #[trigger] simple_derives(aut, streams, c0, f@, n0);
                            lemma_simple_derives_extend(aut, streams, c0, f@, s@, n0);
                            assert(simple_derivable(aut, streams, start, s@));
                            assert(!old_cv.contains(s@)) by {
                                if old_cv.contains(s@) {
                                    let i = choose|i: int| 0 <= i < old_cv.len() && old_cv[i] == s@;
                                    assert(old_cfgs[i]@ == s@);
                                }
                            }
                        }
                        self.current_configurations.push(c1);
                        next.push(c2);
                        proof {
                            self.lemma_simple_configs_push(old_cfgs, c1);
                            lemma_push_contains(old_cv, s@);
                            lemma_simple_closed_push(aut, streams, old_cv, s@);
                            assert(next@[next@.len() - 1]@ == s@);
                            assert forall|d: SimpleView| #[trigger] self.configs().contains(d) implies simple_present_from(frontier@, j as int, d)
                                || simple_present_from(next@, 0, d) || simple_closed_at(aut, streams, self.configs(), d) by {
                                if d == s@ {
                                    assert(simple_present_from(next@, 0, d));
                                } else {
                                    assert(old_cv.contains(d));
                                    if simple_present_from(old_next, 0, d) {
                                        let i = choose|i: int| 0 <= i < old_next.len() && #[trigger] old_next[i]@ == d;
                                        assert(next@[i] == old_next[i]);
                                    }
                                }
                            }
                            assert forall|i: int| 0 <= i < next@.len() implies #[trigger] self.configs().contains(next@[i]@) by {
                                if i < old_next.len() {
                                    assert(next@[i] == old_next[i]);
                                    assert(old_cv.contains(old_next[i]@));
                                }
                            }
                            assert forall|i: int| 0 <= i < next@.len() implies pos_sum(#[trigger] next@[i]@.1) >= depth + 1 by {
                                if i < old_next.len() {
                                    assert(next@[i] == old_next[i]);
                                }
                            }
                            assert forall|i: int| 0 <= i < self.configs().len() implies simple_valid(aut, streams, #[trigger] self.configs()[i]) by {
                                if i < old_cv.len() {
                                    assert(self.configs()[i] == old_cv[i]);
                                }
                            }
                            assert forall|a: int, b: int| 0 <= a < b < self.configs().len() implies self.configs()[a] != self.configs()[b] by {
                                if b == old_cv.len() {
                                    assert(old_cv.contains(old_cv[a]));
                                }
                            }
                        }
                    } else {
                        proof {
                            let i = choose|i: int| 0 <= i < self.current_configurations@.len() && #[trigger] self.current_configurations@[i]@ == s@;
                            assert(self.configs()[i] == s@);
                        }
                    }
                }
                proof {
                    assert(simple_closed_at(aut, streams, self.configs(), f@)) by {
                        assert forall|e: SimpleView| #[trigger] simple_successor(aut, streams, f@, e) implies self.configs().contains(e) by {
                            let i = choose|i: int| 0 <= i < succs@.len() && #[trigger] succs@[i]@ == e;
                        }
                    }
                    assert forall|d: SimpleView| #[trigger] self.configs().contains(d) implies simple_present_from(frontier@, j + 1, d)
                        || simple_present_from(next@, 0, d) || simple_closed_at(aut, streams, self.configs(), d) by {
                        if simple_present_from(frontier@, j as int, d) {
                            let i = choose|i: int| j <= i < frontier@.len() && #[trigger] frontier@[i]@ == d;
                            if i == j {
                                assert(d == f@);
                            } else {
                                assert(simple_present_from(frontier@, j + 1, d));
                            }
                        }
                    }
                }
            }
            proof {
                assert forall|d: SimpleView| #[trigger] self.configs().contains(d) implies simple_present_from(next@, 0, d)
                    || simple_closed_at(aut, streams, self.configs(), d) by {
                    if simple_present_from(frontier@, frontier@.len() as int, d) {
                        let i = choose|i: int| frontier@.len() <= i < frontier@.len() && #[trigger] frontier@[i]@ == d;
                    }
                }
            }
            frontier = next;
            proof {
                depth = depth + 1;
            }
        }
        proof {
            assert forall|d: SimpleView| #[trigger] self.configs().contains(d) implies simple_closed_at(aut, streams, self.configs(), d) by {
                if simple_present_from(frontier@, 0, d) {
                    let i = choose|i: int| 0 <= i < frontier@.len() && #[trigger] frontier@[i]@ == d;
                }
            }
        }
        initial_size != self.current_configurations.len()
    }
}

/// Every configuration reached by transitions from a configuration of a
/// closed set belongs to the set.
pub proof fn lemma_simple_closed_contains_derived(
    aut: Automata<(String, usize)>,
    streams: Seq<Seq<Seq<char>>>,
    configs: Seq<SimpleView>,
    c: SimpleView,
    d: SimpleView,
    n: nat,
)
    requires
        configs.contains(c),
        forall|x: SimpleView| #[trigger] configs.contains(x) ==> simple_closed_at(aut, streams, configs, x),
        simple_derives(aut, streams, c, d, n),
    ensures
        configs.contains(d),
    decreases n,
{
    let path = choose|path: Seq<SimpleView>|
        #![trigger path[0], path[n as int]]
        path.len() == n + 1 && path[0] == c && path[n as int] == d && forall|i: int|
            0 <= i < n ==> #[trigger] simple_successor_at(aut, streams, path, i);
    if n > 0 {
        let pre = path.subrange(0, n as int);
        assert forall|i: int| 0 <= i < n - 1 implies #[trigger] simple_successor_at(aut, streams, pre, i) by {
            assert(simple_successor_at(aut, streams, path, i));
        }
        assert(pre[0] == c && pre[(n - 1) as int] == path[n - 1]);
        lemma_simple_closed_contains_derived(aut, streams, configs, c, path[n - 1], (n - 1) as nat);
        assert(simple_successor_at(aut, streams, path, n - 1));
    }
}

impl<'a> SimpleAutomataRunner<'a> {
    /// Adds, for each initial state, a configuration at that state reading
    /// the given views.
    pub fn insert_from_initial_states(&mut self, input_sequence: Vec<ReadableView>)
        requires
            old(self).automaton().wf(),
            old(self).automaton().dimensions == input_sequence@.len(),
        ensures
            final(self).automaton() == old(self).automaton(),
            forall|c: SimpleView| #[trigger] final(self).configs().contains(c) <==> (old(self).configs().contains(c)
                || exists|i: int| 0 <= i < old(self).automaton().initial_states@.len() && c == (#[trigger] old(self).automaton().initial_states@[i], starts_of(input_sequence@))),
            (forall|i: int, j: int| 0 <= i < j < old(self).configs().len() ==> old(self).configs()[i] != old(self).configs()[j])
                ==> (forall|i: int, j: int| 0 <= i < j < final(self).configs().len() ==> final(self).configs()[i] != final(self).configs()[j]),
    {
        let ghost aut = self.automaton();
        let ghost init = aut.initial_states@;
        let ghost old_cfgs = self.configs();
        let n = self.automaton.initial_states.len();
        for k in 0..n
            invariant
                self.automaton() == aut,
                aut.initial_states@ == init,
                n == init.len(),
                forall|c: SimpleView| #[trigger] self.configs().contains(c) <==> (old_cfgs.contains(c)
                    || exists|i: int| 0 <= i < k && c == (#[trigger] init[i], starts_of(input_sequence@))),
                (forall|i: int, j: int| 0 <= i < j < old_cfgs.len() ==> old_cfgs[i] != old_cfgs[j])
                    ==> (forall|i: int, j: int| 0 <= i < j < self.configs().len() ==> self.configs()[i] != self.configs()[j]),
        {
            let q = self.automaton.initial_states[k];
            let config = SimpleAutomataConfiguration::new(q, copy_views(&input_sequence));
            let ghost before = self.configs();
            let ghost cv = config@;
            self.insert(config);
            proof {
                lemma_push_contains(before, cv);
                assert forall|c: SimpleView| #[trigger] self.configs().contains(c) <==> (old_cfgs.contains(c)
                    || exists|i: int| 0 <= i < k + 1 && c == (#[trigger] init[i], starts_of(input_sequence@))) by {
                    if c == cv {
                        assert(c == (init[k as int], starts_of(input_sequence@)));
                    }
                    if exists|i: int| 0 <= i < k + 1 && c == (#[trigger] init[i], starts_of(input_sequence@)) {
                        let i = choose|i: int| 0 <= i < k + 1 && c == (#[trigger] init[i], starts_of(input_sequence@));
                        if i == k {
                            assert(c == cv);
                        }
                    }
                }
                if !before.contains(cv) {
                    assert forall|a: int, b: int| 0 <= a < b < self.configs().len() && (forall|i: int, j: int| 0 <= i < j < before.len() ==> before[i] != before[j])
                        implies self.configs()[a] != self.configs()[b] by {
                        if b == before.len() {
                            assert(before.contains(before[a]));
                        }
                    }
                }
            }
        }
    }

}

} // verus!
