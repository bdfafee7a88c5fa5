use vstd::prelude::*;
use crate::automata::{Automata, Transition};
use crate::sequence::{AppendOnlySequence, ReadableView};
use crate::label::{ValidLabel, lemma_push_contains};

verus! {

/// The contents of the input streams, each element taken by its characters.
pub open spec fn streams_of(sequences: Seq<AppendOnlySequence<String>>) -> Seq<Seq<Seq<char>>> {
    sequences.map_values(|s: AppendOnlySequence<String>| s.items_deep())
}

/// Every stream has at most `usize::MAX` letters.
pub open spec fn streams_bounded(streams: Seq<Seq<Seq<char>>>) -> bool {
    forall|i: int| 0 <= i < streams.len() ==> #[trigger] streams[i].len() <= usize::MAX
}

/// The streams of real sequences are bounded.
pub proof fn lemma_streams_bounded(sequences: Seq<AppendOnlySequence<String>>)
    ensures
        streams_bounded(streams_of(sequences)),
{
    assert forall|i: int| 0 <= i < streams_of(sequences).len() implies #[trigger] streams_of(sequences)[i].len() <= usize::MAX by {
        sequences[i].lemma_len_bound();
    }
}

/// The reading positions of a list of views.
pub open spec fn starts_of(views: Seq<ReadableView>) -> Seq<usize> {
    views.map_values(|v: ReadableView| v.start)
}

/// A configuration as a value: the automaton state, the reading position in
/// each dimension, the position where the matching began in each dimension,
/// and the stream read in each dimension.
pub type ConfigView = (usize, Seq<usize>, Seq<usize>, Seq<usize>);

/// The configuration reached from `c` by the transition `t`, if `t` reads
/// the next letter of the stream of its variable.
pub open spec fn step_via(
    streams: Seq<Seq<Seq<char>>>,
    c: ConfigView,
    t: Transition<(String, usize)>,
) -> Option<ConfigView> {
    let var = t.label.1 as int;
    if var < c.1.len() && c.1[var] < streams[c.3[var] as int].len() && streams[c.3[var] as int][c.1[var] as int]
        == t.label.0@ {
        Some((t.next_state, c.1.update(var, (c.1[var] + 1) as usize), c.2, c.3))
    } else {
        None
    }
}

/// `d` is reached from `c` by one transition of `aut`.
pub open spec fn is_successor(
    aut: Automata<(String, usize)>,
    streams: Seq<Seq<Seq<char>>>,
    c: ConfigView,
    d: ConfigView,
) -> bool {
    exists|k: int|
        0 <= k < aut.trans(c.0 as int).len() && #[trigger] step_via(streams, c, aut.trans(c.0 as int)[k])
            == Some(d)
}

/// `c` fits `aut` and the streams: its state exists, it has one position per
/// variable, and each position lies within the stream it reads.
pub open spec fn config_valid(
    aut: Automata<(String, usize)>,
    streams: Seq<Seq<Seq<char>>>,
    c: ConfigView,
) -> bool {
    &&& c.0 < aut.num_states()
    &&& c.1.len() == aut.dimensions
    &&& c.2.len() == aut.dimensions
    &&& c.3.len() == aut.dimensions
    &&& forall|i: int|
        0 <= i < c.1.len() ==> #[trigger] c.3[i] < streams.len() && c.1[i] <= streams[c.3[i] as int].len()
}

/// A configuration of an automaton run over several streams: the current
/// state, a view per variable on the stream that variable reads, the
/// position where the matching began in each view, and the index of the
/// stream each view reads.
#[derive(Debug)]
pub struct PatternMatchingAutomataConfiguration {
    /// The current state of the automaton.
    pub current_state: usize,
    /// The reading position in each dimension.
    pub input_sequence: Vec<ReadableView>,
    /// The position where the matching began in each dimension.
    pub matching_begin: Vec<usize>,
    /// The index of the stream read in each dimension.
    pub ids: Vec<usize>,
}

impl View for PatternMatchingAutomataConfiguration {
    type V = ConfigView;

    open spec fn view(&self) -> ConfigView {
        (self.current_state, starts_of(self.input_sequence@), self.matching_begin@, self.ids@)
    }
}

/// Copies a vector of positions.
pub fn copy_positions(v: &Vec<usize>) -> (r: Vec<usize>)
    ensures
        r@ == v@,
{
    let mut r: Vec<usize> = Vec::new();
    for i in 0..v.len()
        invariant
            r@ == v@.subrange(0, i as int),
    {
        r.push(v[i]);
        assert(r@ =~= v@.subrange(0, i + 1));
    }
    assert(r@ =~= v@);
    r
}

/// Copies a vector of views.
pub fn copy_views(v: &Vec<ReadableView>) -> (r: Vec<ReadableView>)
    ensures
        r@ == v@,
{
    let mut r: Vec<ReadableView> = Vec::new();
    for i in 0..v.len()
        invariant
            r@ == v@.subrange(0, i as int),
    {
        r.push(v[i]);
        assert(r@ =~= v@.subrange(0, i + 1));
    }
    assert(r@ =~= v@);
    r
}

/// Tells whether two vectors of positions are equal.
pub fn same_positions(a: &Vec<usize>, b: &Vec<usize>) -> (r: bool)
    ensures
        r == (a@ == b@),
{
    if a.len() != b.len() {
        return false;
    }
    for i in 0..a.len()
        invariant
            a@.len() == b@.len(),
            forall|k: int| 0 <= k < i ==> a@[k] == b@[k],
    {
        if a[i] != b[i] {
            return false;
        }
    }
    assert(a@ =~= b@);
    true
}

/// Tells whether two vectors of views are at the same positions.
pub fn same_views(a: &Vec<ReadableView>, b: &Vec<ReadableView>) -> (r: bool)
    ensures
        r == (starts_of(a@) == starts_of(b@)),
{
    if a.len() != b.len() {
        assert(starts_of(a@).len() != starts_of(b@).len());
        return false;
    }
    for i in 0..a.len()
        invariant
            a@.len() == b@.len(),
            forall|k: int| 0 <= k < i ==> a@[k].start == b@[k].start,
    {
        if a[i].start != b[i].start {
            assert(starts_of(a@)[i as int] != starts_of(b@)[i as int]);
            return false;
        }
    }
    assert(starts_of(a@) =~= starts_of(b@));
    true
}

impl PatternMatchingAutomataConfiguration {
    /// Creates a configuration at `current_state` reading the given views;
    /// the matching begins where the views stand.
    pub fn new(current_state: usize, input_sequence: Vec<ReadableView>, ids: Vec<usize>) -> (r: Self)
        ensures
            r@ == (current_state, starts_of(input_sequence@), starts_of(input_sequence@), ids@),
    {
        let mut matching_begin: Vec<usize> = Vec::new();
        for i in 0..input_sequence.len()
            invariant
                matching_begin@ == starts_of(input_sequence@).subrange(0, i as int),
        {
            matching_begin.push(input_sequence[i].start);
            assert(matching_begin@ =~= starts_of(input_sequence@).subrange(0, i + 1));
        }
        assert(matching_begin@ =~= starts_of(input_sequence@));
        Self { current_state, input_sequence, matching_begin, ids }
    }

    /// Whether the current state accepts.
    pub fn is_final(&self, automaton: &Automata<(String, usize)>) -> (r: bool)
        requires
            self.current_state < automaton.num_states(),
        ensures
            r == automaton.final_at(self.current_state as int),
    {
        automaton.states[self.current_state].is_final
    }

    /// Whether some view has read all of its stream while that stream may
    /// still grow.
    pub fn is_waiting(&self, sequences: &Vec<AppendOnlySequence<String>>) -> (r: bool)
        requires
            self.input_sequence@.len() == self.ids@.len(),
            forall|i: int| 0 <= i < self.ids@.len() ==> #[trigger] self.ids@[i] < sequences@.len(),
        ensures
            r == exists|i: int|
                0 <= i < self.ids@.len() && !sequences@[self.ids@[i] as int].is_closed_spec()
                    && #[trigger] self.input_sequence@[i].start == sequences@[self.ids@[i] as int].items().len(),
    {
        for i in 0..self.input_sequence.len()
            invariant
                self.input_sequence@.len() == self.ids@.len(),
                forall|i: int| 0 <= i < self.ids@.len() ==> #[trigger] self.ids@[i] < sequences@.len(),
                forall|k: int|
                    0 <= k < i ==> !(!sequences@[self.ids@[k] as int].is_closed_spec()
                        && #[trigger] self.input_sequence@[k].start == sequences@[self.ids@[k] as int].items().len()),
        {
            let s = &sequences[self.ids[i]];
            if !s.is_closed() && self.input_sequence[i].start == s.len() {
                return true;
            }
        }
        false
    }

    /// The number of variables.
    pub fn dimensions(&self) -> (r: usize)
        ensures
            r == self.input_sequence@.len(),
    {
        self.input_sequence.len()
    }

    /// A copy of the configuration at `current_state`.
    pub fn duplicate(&self, current_state: usize) -> (r: Self)
        ensures
            r@ == (current_state, self@.1, self@.2, self@.3),
    {
        Self {
            current_state,
            input_sequence: copy_views(&self.input_sequence),
            matching_begin: copy_positions(&self.matching_begin),
            ids: copy_positions(&self.ids),
        }
    }

    /// Tells whether two configurations are equal.
    pub fn same_configuration(&self, other: &Self) -> (r: bool)
        ensures
            r == (self@ == other@),
    {
        self.current_state == other.current_state && same_views(&self.input_sequence, &other.input_sequence)
            && same_positions(&self.matching_begin, &other.matching_begin) && same_positions(&self.ids, &other.ids)
    }

    /// The next letter of the `i`-th view, if there is one.
    pub fn input_head(&self, sequences: &Vec<AppendOnlySequence<String>>, i: usize) -> (r: Option<String>)
        requires
            self.input_sequence@.len() == self.ids@.len(),
            forall|k: int| 0 <= k < self.ids@.len() ==> #[trigger] self.ids@[k] < sequences@.len(),
        ensures
            match r {
                Some(h) => i < self.ids@.len() && self.input_sequence@[i as int].start < sequences@[self.ids@[i as int] as int].items().len()
                    && h@ == streams_of(sequences@)[self.ids@[i as int] as int][self.input_sequence@[i as int].start as int],
                None => i >= self.ids@.len() || self.input_sequence@[i as int].start >= sequences@[self.ids@[i as int] as int].items().len(),
            },
    {
        if i < self.input_sequence.len() {
            let s = &sequences[self.ids[i]];
            match s.get(self.input_sequence[i].start) {
                Some(h) => Some(h.clone()),
                None => None,
            }
        } else {
            None
        }
    }

    /// Moves the `i`-th view forward by `count` letters, stopping at the end
    /// of its stream.
    pub fn input_advance(&mut self, sequences: &Vec<AppendOnlySequence<String>>, i: usize, count: usize)
        requires
            old(self).input_sequence@.len() == old(self).ids@.len(),
            forall|k: int| 0 <= k < old(self).ids@.len() ==> #[trigger] old(self).ids@[k] < sequences@.len(),
        ensures
            final(self).current_state == old(self).current_state,
            final(self).matching_begin@ == old(self).matching_begin@,
            final(self).ids@ == old(self).ids@,
            final(self).input_sequence@.len() == old(self).input_sequence@.len(),
            forall|k: int| 0 <= k < old(self).input_sequence@.len() && k != i ==> final(self).input_sequence@[k] == old(self).input_sequence@[k],
            i < old(self).input_sequence@.len() ==> final(self).input_sequence@[i as int].start == if old(self).input_sequence@[i as int].start + count < sequences@[old(self).ids@[i as int] as int].items().len() {
                (old(self).input_sequence@[i as int].start + count) as int
            } else {
                sequences@[old(self).ids@[i as int] as int].items().len() as int
            },
    {
        if i < self.input_sequence.len() {
            let mut v = self.input_sequence[i];
            v.advance_readable(&sequences[self.ids[i]], count);
            self.input_sequence.set(i, v);
        }
    }
}


/// Whether some configuration of `v` equals `c`.
pub fn contains_configuration(
    v: &Vec<PatternMatchingAutomataConfiguration>,
    c: &PatternMatchingAutomataConfiguration,
) -> (r: bool)
    ensures
        r == exists|j: int| 0 <= j < v@.len() && #[trigger] v@[j]@ == c@,
{
    for j in 0..v.len()
        invariant
            forall|k: int| 0 <= k < j ==> #[trigger] v@[k]@ != c@,
    {
        if v[j].same_configuration(c) {
            return true;
        }
    }
    false
}

impl PatternMatchingAutomataConfiguration {
    /// The configurations reached from this one by one transition of
    /// `automaton`, each once: a transition labelled (`a`, `x`) applies when
    /// the next letter of the view of `x` is `a`, and moves that view one
    /// letter forward.
    pub fn successors(
        &self,
        automaton: &Automata<(String, usize)>,
        sequences: &Vec<AppendOnlySequence<String>>,
    ) -> (r: Vec<Self>)
        requires
            automaton.wf(),
            config_valid(*automaton, streams_of(sequences@), self@),
        ensures
            forall|j: int| 0 <= j < r@.len() ==> is_successor(*automaton, streams_of(sequences@), self@, #[trigger] r@[j]@),
            forall|j: int| 0 <= j < r@.len() ==> config_valid(*automaton, streams_of(sequences@), #[trigger] r@[j]@),
            forall|d: ConfigView| is_successor(*automaton, streams_of(sequences@), self@, d) ==> exists|j: int|
                0 <= j < r@.len() && #[trigger] r@[j]@ == d,
            forall|i: int, j: int| 0 <= i < j < r@.len() ==> r@[i]@ != r@[j]@,
    {
        let ghost streams = streams_of(sequences@);
        let ts = &automaton.states[self.current_state].transitions;
        assert(ts@ == automaton.trans(self.current_state as int));
        assert(self.input_sequence@.len() == starts_of(self.input_sequence@).len());
        let mut r: Vec<Self> = Vec::new();
        for k in 0..ts.len()
            invariant
                automaton.wf(),
                streams == streams_of(sequences@),
                config_valid(*automaton, streams, self@),
                self.input_sequence@.len() == self.ids@.len(),
                ts@ == automaton.trans(self.current_state as int),
                forall|j: int| 0 <= j < r@.len() ==> is_successor(*automaton, streams, self@, #[trigger] r@[j]@),
                forall|j: int| 0 <= j < r@.len() ==> config_valid(*automaton, streams, #[trigger] r@[j]@),
                forall|k2: int| 0 <= k2 < k && step_via(streams, self@, #[trigger] ts@[k2]) is Some ==> exists|j: int|
                    0 <= j < r@.len() && #[trigger] r@[j]@ == step_via(streams, self@, ts@[k2])->0,
                forall|i: int, j: int| 0 <= i < j < r@.len() ==> r@[i]@ != r@[j]@,
        {
            let t = &ts[k];
            let var = t.label.1;
            let ghost old_r = r@;
            proof {
                assert(automaton.trans(self.current_state as int)[k as int].label.valid_for(automaton.dimensions as nat));
                assert(automaton.trans(self.current_state as int)[k as int].next_state < automaton.num_states());
                assert(self.ids@[var as int] < sequences@.len());
                assert(streams[self.ids@[var as int] as int] == sequences@[self.ids@[var as int] as int].items_deep());
            }
            let head = self.input_head(sequences, var);
            match head {
                Some(h) => {
                    if h == t.label.0 {
                        let mut s = self.duplicate(t.next_state);
                        s.input_advance(sequences, var, 1);
                        proof {
                            assert(step_via(streams, self@, ts@[k as int]) is Some);
                            assert(s@.1 =~= self@.1.update(var as int, (self@.1[var as int] + 1) as usize));
                            assert(s@ == step_via(streams, self@, ts@[k as int])->0);
                            assert(is_successor(*automaton, streams, self@, s@));
                            assert forall|i: int| 0 <= i < s@.1.len() implies #[trigger] s@.3[i] < streams.len()
                                && s@.1[i] <= streams[s@.3[i] as int].len() by {
                                assert(self@.3[i] < streams.len() && self@.1[i] <= streams[self@.3[i] as int].len());
                            }
                        }
                        let ghost sv = s@;
                        if !contains_configuration(&r, &s) {
                            r.push(s);
                            proof {
                                assert(r@[r@.len() - 1]@ == sv);
                            }
                        }
                    } else {
                        proof {
                            assert(step_via(streams, self@, ts@[k as int]) is None);
                        }
                    }
                },
                None => {
                    proof {
                        assert(step_via(streams, self@, ts@[k as int]) is None);
                    }
                },
            }
            proof {
                assert forall|k2: int| 0 <= k2 < k + 1 && step_via(streams, self@, #[trigger] ts@[k2]) is Some implies exists|j: int|
                    0 <= j < r@.len() && #[trigger] r@[j]@ == step_via(streams, self@, ts@[k2])->0 by {
                    if k2 < k {
                        let j = choose|j: int| 0 <= j < old_r.len() && #[trigger] old_r[j]@ == step_via(streams, self@, ts@[k2])->0;
                        assert(r@[j] == old_r[j]);
                    }
                }
            }
        }
        proof {
            assert forall|d: ConfigView| is_successor(*automaton, streams, self@, d) implies exists|j: int|
                0 <= j < r@.len() && #[trigger] r@[j]@ == d by {
                let k2 = choose|k2: int|
                    0 <= k2 < automaton.trans(self@.0 as int).len() && #[trigger] step_via(streams, self@, automaton.trans(self@.0 as int)[k2]) == Some(d);
                assert(step_via(streams, self@, ts@[k2]) is Some);
            }
        }
        r
    }
}


/// The views of a list of configurations.
pub open spec fn views_of(v: Seq<PatternMatchingAutomataConfiguration>) -> Seq<ConfigView> {
    v.map_values(|c: PatternMatchingAutomataConfiguration| c@)
}

/// The `i`-th configuration of `path` is followed by a successor.
pub open spec fn successor_at(
    aut: Automata<(String, usize)>,
    streams: Seq<Seq<Seq<char>>>,
    path: Seq<ConfigView>,
    i: int,
) -> bool {
    is_successor(aut, streams, path[i], path[i + 1])
}

/// `d` is reached from `c` by `n` transitions.
pub open spec fn derives(
    aut: Automata<(String, usize)>,
    streams: Seq<Seq<Seq<char>>>,
    c: ConfigView,
    d: ConfigView,
    n: nat,
) -> bool {
    exists|path: Seq<ConfigView>|
        #![trigger path[0], path[n as int]]
        path.len() == n + 1 && path[0] == c && path[n as int] == d && forall|i: int|
            0 <= i < n ==> #[trigger] successor_at(aut, streams, path, i)
}

/// `d` is reached by transitions from some configuration of `start`.
pub open spec fn derivable(
    aut: Automata<(String, usize)>,
    streams: Seq<Seq<Seq<char>>>,
    start: Seq<ConfigView>,
    d: ConfigView,
) -> bool {
    exists|c: ConfigView, n: nat| start.contains(c) && #[trigger] derives(aut, streams, c, d, n)
}

/// Every successor of `x` is among `configs`.
pub open spec fn closed_at(
    aut: Automata<(String, usize)>,
    streams: Seq<Seq<Seq<char>>>,
    configs: Seq<ConfigView>,
    x: ConfigView,
) -> bool {
    forall|e: ConfigView| #[trigger] is_successor(aut, streams, x, e) ==> configs.contains(e)
}

/// The sum of a list of positions.
pub open spec fn pos_sum(s: Seq<usize>) -> int
    decreases s.len(),
{
    if s.len() == 0 {
        0
    } else {
        pos_sum(s.drop_last()) + s.last()
    }
}

/// The length of the longest stream.
pub open spec fn max_len(streams: Seq<Seq<Seq<char>>>) -> nat
    decreases streams.len(),
{
    if streams.len() == 0 {
        0
    } else {
        let m = max_len(streams.drop_last());
        if streams.last().len() > m {
            streams.last().len()
        } else {
            m
        }
    }
}

proof fn lemma_max_len(streams: Seq<Seq<Seq<char>>>, i: int)
    requires
        0 <= i < streams.len(),
    ensures
        streams[i].len() <= max_len(streams),
    decreases streams.len(),
{
    if i < streams.len() - 1 {
        lemma_max_len(streams.drop_last(), i);
    }
}

/// Moving one position forward adds one to the sum.
pub proof fn lemma_pos_sum_increment(s: Seq<usize>, i: int)
    requires
        0 <= i < s.len(),
        s[i] < usize::MAX,
    ensures
        pos_sum(s.update(i, (s[i] + 1) as usize)) == pos_sum(s) + 1,
    decreases s.len(),
{
    let t = s.update(i, (s[i] + 1) as usize);
    if i == s.len() - 1 {
        assert(t.drop_last() =~= s.drop_last());
    } else {
        assert(t.drop_last() =~= s.drop_last().update(i, (s[i] + 1) as usize));
        lemma_pos_sum_increment(s.drop_last(), i);
    }
}

/// Positions below `bound` sum to at most `bound` times their number.
pub proof fn lemma_pos_sum_bound(s: Seq<usize>, bound: nat)
    requires
        forall|i: int| 0 <= i < s.len() ==> s[i] <= bound,
    ensures
        0 <= pos_sum(s) <= s.len() * bound,
    decreases s.len(),
{
    if s.len() > 0 {
        lemma_pos_sum_bound(s.drop_last(), bound);
        assert(pos_sum(s) <= (s.len() - 1) * bound + bound);
        assert((s.len() - 1) * bound + bound == s.len() * bound) by (nonlinear_arith);
    }
}

/// A successor has read one letter more than its predecessor.
proof fn lemma_successor_sum(
    aut: Automata<(String, usize)>,
    streams: Seq<Seq<Seq<char>>>,
    c: ConfigView,
    d: ConfigView,
)
    requires
        aut.wf(),
        streams_bounded(streams),
        config_valid(aut, streams, c),
        is_successor(aut, streams, c, d),
    ensures
        pos_sum(d.1) == pos_sum(c.1) + 1,
        config_valid(aut, streams, d),
{
    let k = choose|k: int|
        0 <= k < aut.trans(c.0 as int).len() && #[trigger] step_via(streams, c, aut.trans(c.0 as int)[k]) == Some(d);
    let t = aut.trans(c.0 as int)[k];
    let var = t.label.1 as int;
    assert(t.next_state < aut.num_states());
    assert(c.3[var] < streams.len() && c.1[var] <= streams[c.3[var] as int].len());
    assert(streams[c.3[var] as int].len() <= usize::MAX);
    lemma_pos_sum_increment(c.1, var);
    assert forall|i: int| 0 <= i < d.1.len() implies #[trigger] d.3[i] < streams.len()
        && d.1[i] <= streams[d.3[i] as int].len() by {
        assert(c.3[i] < streams.len() && c.1[i] <= streams[c.3[i] as int].len());
    }
}

/// The positions of a valid configuration sum to at most `dimensions`
/// times the longest stream.
proof fn lemma_valid_sum_bound(aut: Automata<(String, usize)>, streams: Seq<Seq<Seq<char>>>, c: ConfigView)
    requires
        config_valid(aut, streams, c),
    ensures
        0 <= pos_sum(c.1) <= aut.dimensions * max_len(streams),
{
    assert forall|i: int| 0 <= i < c.1.len() implies c.1[i] <= max_len(streams) by {
        assert(c.3[i] < streams.len() && c.1[i] <= streams[c.3[i] as int].len());
        lemma_max_len(streams, c.3[i] as int);
    }
    lemma_pos_sum_bound(c.1, max_len(streams));
}

/// A configuration derives itself, and derivations extend by successors.
proof fn lemma_derives_extend(
    aut: Automata<(String, usize)>,
    streams: Seq<Seq<Seq<char>>>,
    c: ConfigView,
    d: ConfigView,
    e: ConfigView,
    n: nat,
)
    requires
        derives(aut, streams, c, d, n),
        is_successor(aut, streams, d, e),
    ensures
        derives(aut, streams, c, e, n + 1),
{
    let path = choose|path: Seq<ConfigView>|
        #![trigger path[0], path[n as int]]
        path.len() == n + 1 && path[0] == c && path[n as int] == d && forall|i: int|
            0 <= i < n ==> #[trigger] successor_at(aut, streams, path, i);
    let ext = path.push(e);
    assert forall|i: int| 0 <= i < n + 1 implies #[trigger] successor_at(aut, streams, ext, i) by {
        if i < n {
            assert(successor_at(aut, streams, path, i));
        }
    }
    assert(ext[0] == c && ext[(n + 1) as int] == e);
}

proof fn lemma_derives_refl(aut: Automata<(String, usize)>, streams: Seq<Seq<Seq<char>>>, c: ConfigView)
    ensures
        derives(aut, streams, c, c, 0),
{
    let path = seq![c];
    assert(path[0] == c && path[0int] == c);
}

/// Runs an automaton over streams by keeping the set of its configurations.
pub struct PatternMatchingAutomataRunner<'a> {
    automaton: &'a Automata<(String, usize)>,
    /// The current configurations, each once.
    pub current_configurations: Vec<PatternMatchingAutomataConfiguration>,
}

impl<'a> PatternMatchingAutomataRunner<'a> {
    /// The automaton being run.
    pub closed spec fn automaton(&self) -> Automata<(String, usize)> {
        *self.automaton
    }

    /// The current configurations.
    pub closed spec fn configs(&self) -> Seq<ConfigView> {
        views_of(self.current_configurations@)
    }

    /// The automaton is well formed and the configurations are valid for
    /// the streams and pairwise different.
    pub open spec fn inv(&self, streams: Seq<Seq<Seq<char>>>) -> bool {
        &&& self.automaton().wf()
        &&& forall|j: int| 0 <= j < self.configs().len() ==> config_valid(self.automaton(), streams, #[trigger] self.configs()[j])
        &&& forall|i: int, j: int| 0 <= i < j < self.configs().len() ==> self.configs()[i] != self.configs()[j]
    }

    /// A runner for `automaton` with no configuration.
    pub fn new(automaton: &'a Automata<(String, usize)>) -> (r: Self)
        ensures
            r.automaton() == *automaton,
            r.configs() == Seq::<ConfigView>::empty(),
    {
        let r = Self { automaton, current_configurations: Vec::new() };
        assert(r.configs() =~= Seq::<ConfigView>::empty());
        r
    }

    /// The number of configurations.
    pub fn len(&self) -> (r: usize)
        ensures
            r == self.configs().len(),
    {
        self.current_configurations.len()
    }

    /// The `j`-th current configuration.
    pub fn configuration_at(&self, j: usize) -> (r: &PatternMatchingAutomataConfiguration)
        requires
            j < self.configs().len(),
        ensures
            r@ == self.configs()[j as int],
    {
        &self.current_configurations[j]
    }

    /// Adds a configuration unless an equal one is there already.
    pub fn insert(&mut self, configuration: PatternMatchingAutomataConfiguration)
        ensures
            final(self).automaton() == old(self).automaton(),
            final(self).configs() == if old(self).configs().contains(configuration@) {
                old(self).configs()
            } else {
                old(self).configs().push(configuration@)
            },
    {
        let ghost cv = configuration@;
        if !contains_configuration(&self.current_configurations, &configuration) {
            self.current_configurations.push(configuration);
            assert(self.configs() =~= old(self).configs().push(cv));
        } else {
            proof {
                let j = choose|j: int| 0 <= j < old(self).current_configurations@.len() && #[trigger] old(self).current_configurations@[j]@ == cv;
                assert(old(self).configs()[j] == cv);
            }
        }
        proof {
            if old(self).configs().contains(cv) {
                let j = choose|j: int| 0 <= j < old(self).configs().len() && old(self).configs()[j] == cv;
                assert(old(self).current_configurations@[j]@ == cv);
            }
        }
    }
}


/// Some configuration of `v` at position `lo` or later equals `d`.
pub open spec fn present_from(v: Seq<PatternMatchingAutomataConfiguration>, lo: int, d: ConfigView) -> bool {
    exists|i: int| lo <= i < v.len() && #[trigger] v[i]@ == d
}

/// Adding a configuration keeps every configuration closed.
proof fn lemma_closed_push(
    aut: Automata<(String, usize)>,
    streams: Seq<Seq<Seq<char>>>,
    cs: Seq<ConfigView>,
    y: ConfigView,
)
    ensures
        forall|x: ConfigView| #[trigger] closed_at(aut, streams, cs, x) ==> closed_at(aut, streams, cs.push(y), x),
{
    lemma_push_contains(cs, y);
}

impl<'a> PatternMatchingAutomataRunner<'a> {
    /// The configurations as a list of views, and the same after a push.
    proof fn lemma_configs_push(&self, old_configs: Seq<PatternMatchingAutomataConfiguration>, c: PatternMatchingAutomataConfiguration)
        requires
            self.current_configurations@ == old_configs.push(c),
        ensures
            self.configs() == views_of(old_configs).push(c@),
    {
        assert(self.configs() =~= views_of(old_configs).push(c@));
    }

    /// Adds every configuration reached from the current ones by
    /// transitions over the streams, until no new configuration appears.
    pub fn consume(&mut self, sequences: &Vec<AppendOnlySequence<String>>)
        requires
            old(self).inv(streams_of(sequences@)),
        ensures
            final(self).inv(streams_of(sequences@)),
            final(self).automaton() == old(self).automaton(),
            forall|c: ConfigView| old(self).configs().contains(c) ==> #[trigger] final(self).configs().contains(c),
            forall|d: ConfigView| #[trigger] final(self).configs().contains(d) ==> derivable(
                final(self).automaton(),
                streams_of(sequences@),
                old(self).configs(),
                d,
            ),
            forall|d: ConfigView| #[trigger] final(self).configs().contains(d) ==> closed_at(
                final(self).automaton(),
                streams_of(sequences@),
                final(self).configs(),
                d,
            ),
    {
        let ghost streams = streams_of(sequences@);
        let ghost start = self.configs();
        let ghost aut = self.automaton();
        proof {
            lemma_streams_bounded(sequences@);
        }
        let ghost bound: int = aut.dimensions * max_len(streams);
        let mut frontier: Vec<PatternMatchingAutomataConfiguration> = Vec::new();
        for i in 0..self.current_configurations.len()
            invariant
                self.configs() == start,
                views_of(frontier@) == start.subrange(0, i as int),
                i <= start.len(),
        {
            let c = &self.current_configurations[i];
            let d = c.duplicate(c.current_state);
            let ghost old_f = frontier@;
            let ghost dv = d@;
            frontier.push(d);
            proof {
                assert(start[i as int] == c@);
                assert(views_of(frontier@) =~= views_of(old_f).push(dv));
                assert(views_of(frontier@) =~= start.subrange(0, i + 1));
            }
        }
        proof {
            assert(views_of(frontier@) =~= start);
            assert forall|d: ConfigView| #[trigger] self.configs().contains(d) implies derivable(aut, streams, start, d) by {
                lemma_derives_refl(aut, streams, d);
            }
            assert forall|d: ConfigView| #[trigger] self.configs().contains(d) implies present_from(frontier@, 0, d) by {
                let i = choose|i: int| 0 <= i < start.len() && start[i] == d;
                assert(frontier@[i]@ == views_of(frontier@)[i]);
            }
            assert forall|j: int| 0 <= j < frontier@.len() implies #[trigger] self.configs().contains(frontier@[j]@) by {
                assert(start[j] == views_of(frontier@)[j]);
            }
            assert forall|j: int| 0 <= j < frontier@.len() implies pos_sum(#[trigger] frontier@[j]@.1) >= 0 by {
                assert(start[j] == views_of(frontier@)[j]);
                assert(config_valid(aut, streams, start[j]));
                lemma_valid_sum_bound(aut, streams, start[j]);
            }
        }
        let ghost mut depth: int = 0;
        while frontier.len() > 0
            invariant
                self.inv(streams),
                self.automaton() == aut,
                aut.wf(),
                streams == streams_of(sequences@),
                streams_bounded(streams),
                bound == aut.dimensions * max_len(streams),
                0 <= depth <= bound + 1,
                forall|c: ConfigView| start.contains(c) ==> #[trigger] self.configs().contains(c),
                forall|d: ConfigView| #[trigger] self.configs().contains(d) ==> derivable(aut, streams, start, d),
                forall|j: int| 0 <= j < frontier@.len() ==> #[trigger] self.configs().contains(frontier@[j]@),
                forall|j: int| 0 <= j < frontier@.len() ==> pos_sum(#[trigger] frontier@[j]@.1) >= depth,
                forall|d: ConfigView| #[trigger] self.configs().contains(d) ==> present_from(frontier@, 0, d)
                    || closed_at(aut, streams, self.configs(), d),
            decreases bound + 1 - depth,
        {
            proof {
                let f = frontier@[0]@;
                assert(self.configs().contains(f));
                let i = choose|i: int| 0 <= i < self.configs().len() && self.configs()[i] == f;
                assert(config_valid(aut, streams, self.configs()[i]));
                lemma_valid_sum_bound(aut, streams, f);
            }
            let mut next: Vec<PatternMatchingAutomataConfiguration> = Vec::new();
            for j in 0..frontier.len()
                invariant
                    self.inv(streams),
                    self.automaton() == aut,
                    aut.wf(),
                    streams == streams_of(sequences@),
                    streams_bounded(streams),
                    forall|c: ConfigView| start.contains(c) ==> #[trigger] self.configs().contains(c),
                    forall|d: ConfigView| #[trigger] self.configs().contains(d) ==> derivable(aut, streams, start, d),
                    forall|i: int| 0 <= i < frontier@.len() ==> #[trigger] self.configs().contains(frontier@[i]@),
                    forall|i: int| 0 <= i < frontier@.len() ==> pos_sum(#[trigger] frontier@[i]@.1) >= depth,
                    forall|i: int| 0 <= i < next@.len() ==> #[trigger] self.configs().contains(next@[i]@),
                    forall|i: int| 0 <= i < next@.len() ==> pos_sum(#[trigger] next@[i]@.1) >= depth + 1,
                    forall|d: ConfigView| #[trigger] self.configs().contains(d) ==> present_from(frontier@, j as int, d)
                        || present_from(next@, 0, d) || closed_at(aut, streams, self.configs(), d),
            {
                let f = &frontier[j];
                proof {
                    assert(self.configs().contains(f@));
                    let i = choose|i: int| 0 <= i < self.configs().len() && self.configs()[i] == f@;
                    assert(config_valid(aut, streams, self.configs()[i]));
                }
                let succs = f.successors(self.automaton, sequences);
                for k in 0..succs.len()
                    invariant
                        self.inv(streams),
                        self.automaton() == aut,
                        aut.wf(),
                        streams == streams_of(sequences@),
                        streams_bounded(streams),
                        0 <= j < frontier@.len(),
                        *f == frontier@[j as int],
                        pos_sum(f@.1) >= depth,
                        self.configs().contains(f@),
                        config_valid(aut, streams, f@),
                        forall|i: int| 0 <= i < succs@.len() ==> is_successor(aut, streams, f@, #[trigger] succs@[i]@),
                        forall|i: int| 0 <= i < succs@.len() ==> config_valid(aut, streams, #[trigger] succs@[i]@),
                        forall|i: int| 0 <= i < k ==> #[trigger] self.configs().contains(succs@[i]@),
                        forall|c: ConfigView| start.contains(c) ==> #[trigger] self.configs().contains(c),
                        forall|d: ConfigView| #[trigger] self.configs().contains(d) ==> derivable(aut, streams, start, d),
                        forall|i: int| 0 <= i < frontier@.len() ==> #[trigger] self.configs().contains(frontier@[i]@),
                        forall|i: int| 0 <= i < next@.len() ==> #[trigger] self.configs().contains(next@[i]@),
                        forall|i: int| 0 <= i < next@.len() ==> pos_sum(#[trigger] next@[i]@.1) >= depth + 1,
                        forall|d: ConfigView| #[trigger] self.configs().contains(d) ==> present_from(frontier@, j as int, d)
                            || present_from(next@, 0, d) || closed_at(aut, streams, self.configs(), d),
                {
                    let s = &succs[k];
                    if !contains_configuration(&self.current_configurations, s) {
                        let c1 = s.duplicate(s.current_state);
                        let c2 = s.duplicate(s.current_state);
                        let ghost old_cfgs = self.current_configurations@;
                        let ghost old_cv = self.configs();
                        let ghost old_next = next@;
                        proof {
                            lemma_successor_sum(aut, streams, f@, s@);
                            let (c0, n0) = choose|c0: ConfigView, n0: nat| start.contains(c0) && #[trigger] derives(aut, streams, c0, f@, n0);
                            lemma_derives_extend(aut, streams, c0, f@, s@, n0);
                            assert(derivable(aut, streams, start, s@));
                            assert(!old_cv.contains(s@)) by {
                                if old_cv.contains(s@) {
                                    let i = choose|i: int| 0 <= i < old_cv.len() && old_cv[i] == s@;
                                    assert(old_cfgs[i]@ == s@);
                                }
                            }
                        }
                        self.current_configurations.push(c1);
                        next.push(c2);
                        proof {
                            self.lemma_configs_push(old_cfgs, c1);
                            lemma_push_contains(old_cv, s@);
                            lemma_closed_push(aut, streams, old_cv, s@);
                            assert(next@[next@.len() - 1]@ == s@);
                            assert forall|d: ConfigView| #[trigger] self.configs().contains(d) implies present_from(frontier@, j as int, d)
                                || present_from(next@, 0, d) || closed_at(aut, streams, self.configs(), d) by {
                                if d == s@ {
                                    assert(present_from(next@, 0, d));
                                } else {
                                    assert(old_cv.contains(d));
                                    if present_from(old_next, 0, d) {
                                        let i = choose|i: int| 0 <= i < old_next.len() && #[trigger] old_next[i]@ == d;
                                        assert(next@[i] == old_next[i]);
                                    }
                                }
                            }
                            assert forall|i: int| 0 <= i < next@.len() implies #[trigger] self.configs().contains(next@[i]@) by {
                                if i < old_next.len() {
                                    assert(next@[i] == old_next[i]);
                                    assert(old_cv.contains(old_next[i]@));
                                }
                            }
                            assert forall|i: int| 0 <= i < next@.len() implies pos_sum(#[trigger] next@[i]@.1) >= depth + 1 by {
                                if i < old_next.len() {
                                    assert(next@[i] == old_next[i]);
                                }
                            }
                            assert forall|i: int| 0 <= i < self.configs().len() implies config_valid(aut, streams, #[trigger] self.configs()[i]) by {
                                if i < old_cv.len() {
                                    assert(self.configs()[i] == old_cv[i]);
                                }
                            }
                            assert forall|a: int, b: int| 0 <= a < b < self.configs().len() implies self.configs()[a] != self.configs()[b] by {
                                if b == old_cv.len() {
                                    assert(old_cv.contains(old_cv[a]));
                                }
                            }
                        }
                    } else {
                        proof {
                            let i = choose|i: int| 0 <= i < self.current_configurations@.len() && #[trigger] self.current_configurations@[i]@ == s@;
                            assert(self.configs()[i] == s@);
                        }
                    }
                }
                proof {
                    assert(closed_at(aut, streams, self.configs(), f@)) by {
                        assert forall|e: ConfigView| #[trigger] is_successor(aut, streams, f@, e) implies self.configs().contains(e) by {
                            let i = choose|i: int| 0 <= i < succs@.len() && #[trigger] succs@[i]@ == e;
                        }
                    }
                    assert forall|d: ConfigView| #[trigger] self.configs().contains(d) implies present_from(frontier@, j + 1, d)
                        || present_from(next@, 0, d) || closed_at(aut, streams, self.configs(), d) by {
                        if present_from(frontier@, j as int, d) {
                            let i = choose|i: int| j <= i < frontier@.len() && #[trigger] frontier@[i]@ == d;
                            if i == j {
                                assert(d == f@);
                            } else {
                                assert(present_from(frontier@, j + 1, d));
                            }
                        }
                    }
                }
            }
            proof {
                assert forall|d: ConfigView| #[trigger] self.configs().contains(d) implies present_from(next@, 0, d)
                    || closed_at(aut, streams, self.configs(), d) by {
                    if present_from(frontier@, frontier@.len() as int, d) {
                        let i = choose|i: int| frontier@.len() <= i < frontier@.len() && #[trigger] frontier@[i]@ == d;
                    }
                }
            }
            frontier = next;
            proof {
                depth = depth + 1;
            }
        }
        proof {
            assert forall|d: ConfigView| #[trigger] self.configs().contains(d) implies closed_at(aut, streams, self.configs(), d) by {
                if present_from(frontier@, 0, d) {
                    let i = choose|i: int| 0 <= i < frontier@.len() && #[trigger] frontier@[i]@ == d;
                }
            }
        }
    }
}


/// Every configuration reached by transitions from a configuration of a
/// closed set belongs to the set.
pub proof fn lemma_closed_contains_derived(
    aut: Automata<(String, usize)>,
    streams: Seq<Seq<Seq<char>>>,
    configs: Seq<ConfigView>,
    c: ConfigView,
    d: ConfigView,
    n: nat,
)
    requires
        configs.contains(c),
        forall|x: ConfigView| #[trigger] configs.contains(x) ==> closed_at(aut, streams, configs, x),
        derives(aut, streams, c, d, n),
    ensures
        configs.contains(d),
    decreases n,
{
    let path = choose|path: Seq<ConfigView>|
        #![trigger path[0], path[n as int]]
        path.len() == n + 1 && path[0] == c && path[n as int] == d && forall|i: int|
            0 <= i < n ==> #[trigger] successor_at(aut, streams, path, i);
    if n > 0 {
        let pre = path.subrange(0, n as int);
        assert forall|i: int| 0 <= i < n - 1 implies #[trigger] successor_at(aut, streams, pre, i) by {
            assert(successor_at(aut, streams, path, i));
        }
        assert(pre[0] == c && pre[(n - 1) as int] == path[n - 1]);
        lemma_closed_contains_derived(aut, streams, configs, c, path[n - 1], (n - 1) as nat);
        assert(successor_at(aut, streams, path, n - 1));
    }
}

/// Whether the configuration has read all of some stream that may still grow.
pub open spec fn waiting_view(sequences: Seq<AppendOnlySequence<String>>, c: ConfigView) -> bool {
    exists|i: int|
        0 <= i < c.3.len() && !sequences[c.3[i] as int].is_closed_spec() && #[trigger] c.1[i]
            == sequences[c.3[i] as int].items().len()
}

/// The configurations of `cs` that are waiting, in order.
pub open spec fn keep_waiting(sequences: Seq<AppendOnlySequence<String>>, cs: Seq<ConfigView>) -> Seq<ConfigView>
    decreases cs.len(),
{
    if cs.len() == 0 {
        cs
    } else {
        let rest = keep_waiting(sequences, cs.drop_last());
        if waiting_view(sequences, cs.last()) {
            rest.push(cs.last())
        } else {
            rest
        }
    }
}

/// The configurations of `cs` at a final state, in order.
pub open spec fn keep_final(aut: Automata<(String, usize)>, cs: Seq<ConfigView>) -> Seq<ConfigView>
    decreases cs.len(),
{
    if cs.len() == 0 {
        cs
    } else {
        let rest = keep_final(aut, cs.drop_last());
        if aut.final_at(cs.last().0 as int) {
            rest.push(cs.last())
        } else {
            rest
        }
    }
}

/// Keeping some configurations of a list keeps them pairwise different and
/// keeps only configurations of the list.
/// The configurations kept are exactly those of the list that wait.
pub proof fn lemma_keep_waiting_contains(sequences: Seq<AppendOnlySequence<String>>, cs: Seq<ConfigView>, x: ConfigView)
    ensures
        keep_waiting(sequences, cs).contains(x) <==> cs.contains(x) && waiting_view(sequences, x),
    decreases cs.len(),
{
    if cs.len() > 0 {
        let pre = cs.drop_last();
        lemma_keep_waiting_contains(sequences, pre, x);
        lemma_push_contains(keep_waiting(sequences, pre), cs.last());
        lemma_push_contains(pre, cs.last());
        assert(cs == pre.push(cs.last()));
    } else {
        assert(!cs.contains(x));
    }
}

pub proof fn lemma_keep_waiting_sub(sequences: Seq<AppendOnlySequence<String>>, cs: Seq<ConfigView>)
    ensures
        forall|x: ConfigView| #[trigger] keep_waiting(sequences, cs).contains(x) ==> cs.contains(x),
        (forall|i: int, j: int| 0 <= i < j < cs.len() ==> cs[i] != cs[j]) ==> (forall|i: int, j: int|
            0 <= i < j < keep_waiting(sequences, cs).len() ==> keep_waiting(sequences, cs)[i] != keep_waiting(sequences, cs)[j]),
    decreases cs.len(),
{
    if cs.len() > 0 {
        let pre = cs.drop_last();
        lemma_keep_waiting_sub(sequences, pre);
        let rest = keep_waiting(sequences, pre);
        lemma_push_contains(rest, cs.last());
        lemma_push_contains(pre, cs.last());
        assert(cs =~= pre.push(cs.last()));
        if forall|i: int, j: int| 0 <= i < j < cs.len() ==> cs[i] != cs[j] {
            assert(!pre.contains(cs.last())) by {
                if pre.contains(cs.last()) {
                    let i = choose|i: int| 0 <= i < pre.len() && pre[i] == cs.last();
                    assert(cs[i] == cs[cs.len() - 1]);
                }
            }
            assert(forall|i: int, j: int| 0 <= i < j < pre.len() ==> pre[i] != pre[j]) by {
                assert forall|i: int, j: int| 0 <= i < j < pre.len() implies pre[i] != pre[j] by {
                    assert(pre[i] == cs[i] && pre[j] == cs[j]);
                }
            }
            if waiting_view(sequences, cs.last()) {
                assert(!rest.contains(cs.last()));
                let k = keep_waiting(sequences, cs);
                assert forall|i: int, j: int| 0 <= i < j < k.len() implies k[i] != k[j] by {
                    if j == k.len() - 1 {
                        assert(rest.contains(k[i]));
                    } else {
                        assert(k[i] == rest[i] && k[j] == rest[j]);
                    }
                }
            }
        }
    }
}

impl<'a> PatternMatchingAutomataRunner<'a> {
    /// Adds, for each initial state, a configuration at that state reading
    /// the given views of the streams `ids`.
    pub fn insert_from_initial_states(&mut self, input_sequence: Vec<ReadableView>, ids: Vec<usize>)
        requires
            old(self).automaton().wf(),
            old(self).automaton().dimensions == input_sequence@.len(),
        ensures
            final(self).automaton() == old(self).automaton(),
            forall|c: ConfigView| #[trigger] final(self).configs().contains(c) <==> (old(self).configs().contains(c)
                || exists|i: int| 0 <= i < old(self).automaton().initial_states@.len() && c == (
                    #[trigger] old(self).automaton().initial_states@[i],
                    starts_of(input_sequence@),
                    starts_of(input_sequence@),
                    ids@,
                )),
            (forall|i: int, j: int| 0 <= i < j < old(self).configs().len() ==> old(self).configs()[i] != old(self).configs()[j])
                ==> (forall|i: int, j: int| 0 <= i < j < final(self).configs().len() ==> final(self).configs()[i] != final(self).configs()[j]),
    {
        let ghost aut = self.automaton();
        let ghost init = aut.initial_states@;
        let ghost old_cfgs = self.configs();
        let n = self.automaton.initial_states.len();
        for k in 0..n
            invariant
                self.automaton() == aut,
                aut.initial_states@ == init,
                n == init.len(),
                forall|c: ConfigView| #[trigger] self.configs().contains(c) <==> (old_cfgs.contains(c)
                    || exists|i: int| 0 <= i < k && c == (
                        #[trigger] init[i],
                        starts_of(input_sequence@),
                        starts_of(input_sequence@),
                        ids@,
                    )),
                (forall|i: int, j: int| 0 <= i < j < old_cfgs.len() ==> old_cfgs[i] != old_cfgs[j])
                    ==> (forall|i: int, j: int| 0 <= i < j < self.configs().len() ==> self.configs()[i] != self.configs()[j]),
        {
            let q = self.automaton.initial_states[k];
            let config = PatternMatchingAutomataConfiguration::new(
                q,
                copy_views(&input_sequence),
                copy_positions(&ids),
            );
            let ghost before = self.configs();
            let ghost cv = config@;
            self.insert(config);
            proof {
                lemma_push_contains(before, cv);
                assert forall|c: ConfigView| #[trigger] self.configs().contains(c) <==> (old_cfgs.contains(c)
                    || exists|i: int| 0 <= i < k + 1 && c == (
                        #[trigger] init[i],
                        starts_of(input_sequence@),
                        starts_of(input_sequence@),
                        ids@,
                    )) by {
                    if c == cv {
                        assert(c == (init[k as int], starts_of(input_sequence@), starts_of(input_sequence@), ids@));
                    }
                    if exists|i: int| 0 <= i < k + 1 && c == (
                        #[trigger] init[i],
                        starts_of(input_sequence@),
                        starts_of(input_sequence@),
                        ids@,
                    ) {
                        let i = choose|i: int| 0 <= i < k + 1 && c == (
                            #[trigger] init[i],
                            starts_of(input_sequence@),
                            starts_of(input_sequence@),
                            ids@,
                        );
                        if i == k {
                            assert(c == cv);
                        }
                    }
                }
                if !before.contains(cv) {
                    assert forall|a: int, b: int| 0 <= a < b < self.configs().len() && (forall|i: int, j: int| 0 <= i < j < before.len() ==> before[i] != before[j])
                        implies self.configs()[a] != self.configs()[b] by {
                        if b == before.len() {
                            assert(before.contains(before[a]));
                        }
                    }
                }
            }
        }
    }

    /// The configurations at a final state, in order.
    pub fn get_final_configurations(&self) -> (r: Vec<&PatternMatchingAutomataConfiguration>)
        requires
            self.automaton().wf(),
            forall|j: int| 0 <= j < self.configs().len() ==> (#[trigger] self.configs()[j]).0 < self.automaton().num_states(),
        ensures
            r@.map_values(|c: &PatternMatchingAutomataConfiguration| c@) == keep_final(self.automaton(), self.configs()),
    {
        let mut r: Vec<&PatternMatchingAutomataConfiguration> = Vec::new();
        for i in 0..self.current_configurations.len()
            invariant
                self.automaton().wf(),
                forall|j: int| 0 <= j < self.configs().len() ==> (#[trigger] self.configs()[j]).0 < self.automaton().num_states(),
                r@.map_values(|c: &PatternMatchingAutomataConfiguration| c@) == keep_final(self.automaton(), self.configs().subrange(0, i as int)),
        {
            let c = &self.current_configurations[i];
            proof {
                assert(self.configs()[i as int] == c@);
                assert(self.configs().subrange(0, i + 1).drop_last() =~= self.configs().subrange(0, i as int));
            }
            let ghost before = r@;
            if c.is_final(self.automaton) {
                r.push(c);
                assert(r@.map_values(|c: &PatternMatchingAutomataConfiguration| c@) =~= before.map_values(|c: &PatternMatchingAutomataConfiguration| c@).push(c@));
            }
        }
        assert(self.configs().subrange(0, self.configs().len() as int) =~= self.configs());
        r
    }

    /// Removes the configurations that are not waiting for more input.
    pub fn remove_non_waiting_configurations(&mut self, sequences: &Vec<AppendOnlySequence<String>>)
        requires
            forall|j: int| 0 <= j < old(self).configs().len() ==> (#[trigger] old(self).configs()[j]).1.len() == old(self).configs()[j].3.len()
                && forall|i: int| 0 <= i < old(self).configs()[j].3.len() ==> #[trigger] old(self).configs()[j].3[i] < sequences@.len(),
        ensures
            final(self).automaton() == old(self).automaton(),
            final(self).configs() == keep_waiting(sequences@, old(self).configs()),
    {
        let ghost cs0 = self.configs();
        let mut rest: Vec<PatternMatchingAutomataConfiguration> = Vec::new();
        std::mem::swap(&mut rest, &mut self.current_configurations);
        assert(views_of(rest@) == cs0);
        while rest.len() > 0
            invariant
                views_of(rest@) == cs0.subrange(cs0.len() - rest@.len(), cs0.len() as int),
                rest@.len() <= cs0.len(),
                self.configs() == keep_waiting(sequences@, cs0.subrange(0, cs0.len() - rest@.len())),
                forall|j: int| 0 <= j < cs0.len() ==> (#[trigger] cs0[j]).1.len() == cs0[j].3.len()
                    && forall|i: int| 0 <= i < cs0[j].3.len() ==> #[trigger] cs0[j].3[i] < sequences@.len(),
                self.automaton() == old(self).automaton(),
            decreases rest@.len(),
        {
            let ghost i = cs0.len() - rest@.len();
            let ghost old_rest = rest@;
            let c = rest.remove(0);
            proof {
                assert(views_of(old_rest)[0] == cs0.subrange(i, cs0.len() as int)[0]);
                assert(c@ == cs0[i]);
                assert forall|k: int| 0 <= k < rest@.len() implies views_of(rest@)[k] == cs0.subrange(i + 1, cs0.len() as int)[k] by {
                    assert(rest@[k] == old_rest[k + 1]);
                    assert(views_of(old_rest)[k + 1] == cs0.subrange(i, cs0.len() as int)[k + 1]);
                }
                assert(cs0.subrange(0, i + 1).drop_last() =~= cs0.subrange(0, i));
                assert(views_of(rest@) =~= cs0.subrange(i + 1, cs0.len() as int));
                assert(c@.1.len() == c.input_sequence@.len());
            }
            if c.is_waiting(sequences) {
                let ghost before = self.current_configurations@;
                self.current_configurations.push(c);
                proof {
                    self.lemma_configs_push(before, c);
                    assert(waiting_view(sequences@, c@)) by {
                        let k = choose|k: int| 0 <= k < c.ids@.len() && !sequences@[c.ids@[k] as int].is_closed_spec()
                            && #[trigger] c.input_sequence@[k].start == sequences@[c.ids@[k] as int].items().len();
                        assert(c@.1[k] == c.input_sequence@[k].start);
                    }
                }
            } else {
                proof {
                    assert(!waiting_view(sequences@, c@)) by {
                        if waiting_view(sequences@, c@) {
                            let k = choose|k: int| 0 <= k < c@.3.len() && !sequences@[c@.3[k] as int].is_closed_spec()
                                && #[trigger] c@.1[k] == sequences@[c@.3[k] as int].items().len();
                            assert(c@.1[k] == c.input_sequence@[k].start);
                        }
                    }
                }
            }
        }
        assert(cs0.subrange(0, cs0.len() as int) =~= cs0);
    }
}


/// A hyper pattern matching procedure fed with the lines of several streams.
pub trait HyperPatternMatching {
    /// The internal state is consistent.
    spec fn ready(&self) -> bool;

    /// The number of streams.
    spec fn tracks(&self) -> nat;

    /// The stream `track` has ended.
    spec fn ended(&self, track: int) -> bool;

    /// The letters fed so far to each stream.
    spec fn fed(&self) -> Seq<Seq<Seq<char>>>;

    /// There is a fed sequence per stream.
    proof fn lemma_fed_len(&self)
        requires
            self.ready(),
        ensures
            self.fed().len() == self.tracks(),
    ;

    /// Appends `action` to the stream `track` and reports the matchings found.
    fn feed(&mut self, action: &str, track: usize)
        requires
            old(self).ready(),
            track < old(self).tracks(),
        ensures
            final(self).ready(),
            final(self).tracks() == old(self).tracks(),
            forall|t: int| #[trigger] final(self).ended(t) == old(self).ended(t),
            final(self).fed().len() == old(self).fed().len(),
            forall|t: int| 0 <= t < old(self).fed().len() && t != track ==> #[trigger] final(self).fed()[t] == old(self).fed()[t],
            !old(self).ended(track as int) ==> final(self).fed()[track as int] == old(self).fed()[track as int].push(action@),
    ;

    /// The number of streams.
    fn dimensions(&self) -> (r: usize)
        ensures
            r == self.tracks(),
    ;

    /// Reports the matchings left once every stream has ended.
    fn consume_remaining(&mut self)
        requires
            old(self).ready(),
            forall|t: int| 0 <= t < old(self).tracks() ==> #[trigger] old(self).ended(t),
        ensures
            final(self).ready(),
            final(self).tracks() == old(self).tracks(),
            forall|t: int| #[trigger] final(self).ended(t) == old(self).ended(t),
            final(self).fed() == old(self).fed(),
    ;

    /// Marks the stream `track` as ended.
    fn set_eof(&mut self, track: usize)
        requires
            old(self).ready(),
            track < old(self).tracks(),
        ensures
            final(self).ready(),
            final(self).tracks() == old(self).tracks(),
            final(self).ended(track as int),
            forall|t: int| t != track ==> #[trigger] final(self).ended(t) == old(self).ended(t),
            final(self).fed() == old(self).fed(),
    ;
}

/// A configuration valid for some streams stays valid when the streams grow.
pub proof fn lemma_valid_extend(
    aut: Automata<(String, usize)>,
    streams: Seq<Seq<Seq<char>>>,
    streams2: Seq<Seq<Seq<char>>>,
    c: ConfigView,
)
    requires
        config_valid(aut, streams, c),
        streams2.len() == streams.len(),
        forall|i: int| 0 <= i < streams.len() ==> #[trigger] streams[i].len() <= streams2[i].len(),
    ensures
        config_valid(aut, streams2, c),
{
    assert forall|i: int| 0 <= i < c.1.len() implies #[trigger] c.3[i] < streams2.len() && c.1[i] <= streams2[c.3[i] as int].len() by {
        assert(c.3[i] < streams.len() && c.1[i] <= streams[c.3[i] as int].len());
        assert(streams[c.3[i] as int].len() <= streams2[c.3[i] as int].len());
    }
}

/// The configurations kept by `keep_final` are those of the list at a final state.
pub proof fn lemma_keep_final_contains(aut: Automata<(String, usize)>, cs: Seq<ConfigView>, x: ConfigView)
    ensures
        keep_final(aut, cs).contains(x) <==> (cs.contains(x) && aut.final_at(x.0 as int)),
    decreases cs.len(),
{
    if cs.len() > 0 {
        let pre = cs.drop_last();
        lemma_keep_final_contains(aut, pre, x);
        lemma_push_contains(keep_final(aut, pre), cs.last());
        lemma_push_contains(pre, cs.last());
        assert(cs =~= pre.push(cs.last()));
    }
}

impl<'a> PatternMatchingAutomataRunner<'a> {
    /// Removes every configuration.
    pub fn clear(&mut self)
        ensures
            final(self).automaton() == old(self).automaton(),
            final(self).configs() == Seq::<ConfigView>::empty(),
    {
        self.current_configurations.clear();
        assert(self.configs() =~= Seq::<ConfigView>::empty());
    }

    /// Whether some configuration reads the streams `ids`.
    pub fn has_ids(&self, ids: &Vec<usize>) -> (r: bool)
        ensures
            r == exists|j: int| 0 <= j < self.configs().len() && (#[trigger] self.configs()[j]).3 == ids@,
    {
        for j in 0..self.current_configurations.len()
            invariant
                forall|k: int| 0 <= k < j ==> (#[trigger] self.configs()[k]).3 != ids@,
        {
            if same_positions(&self.current_configurations[j].ids, ids) {
                assert(self.configs()[j as int].3 == ids@);
                return true;
            }
        }
        false
    }
}

} // verus!
