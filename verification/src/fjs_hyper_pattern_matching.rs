use vstd::prelude::*;
use crate::dfa::distinct;
use crate::automata::Automata;
use crate::hyper_pattern_matching::{
    ConfigView, HyperPatternMatching, PatternMatchingAutomataConfiguration, PatternMatchingAutomataRunner,
    config_valid, derivable, derives, keep_final, lemma_closed_contains_derived, lemma_keep_final_contains,
    lemma_valid_extend, starts_of, streams_of, copy_positions, waiting_view, lemma_keep_waiting_contains,
};
use crate::kmp_skip_values::{KMPSkipValues, skip_value_of};
use crate::naive_hyper_pattern_matching::{
    MatchingReport, all_below_max, entries_below, index_tuples, intervals_of, lemma_queues_max, lemma_seq_max,
    max_nat, queues_max, report_of, reports_of, seq_max, sound_report, trial_starts, trial_config, running,
    tuples_distinct, trial_derivable, lemma_found_reported,
};
use crate::quick_search_skip_values::{QuickSearchSkipValues, contains_string};
use crate::result_notifier::{MatchingInterval, ResultNotifier};
use crate::sequence::{AppendOnlySequence, ReadableView};
use crate::label::lemma_push_contains;
use crate::filtered_single_hyper_pattern_matching::next_position;
use crate::start_position::{
    StartPosition, copy_start_position, insert_start_position, lemma_position_increment, lemma_position_rank_bound,
    lemma_position_rank_less, position_less, position_rank, power, queue_view, sorted_positions,
    lex_less, lemma_lex_irreflexive,
};

verus! {

/// The start positions ruled out by skip values: for each variable and
/// each stream, a set of positions.
struct SkippedStartingPositions {
    /// Number of variables.
    variable_size: usize,
    /// Number of streams.
    sequence_size: usize,
    /// Variable -> stream -> positions, each once.
    skipped_starting_positions: Vec<Vec<Vec<usize>>>,
}

impl SkippedStartingPositions {
    /// A set of positions for each variable and each stream.
    spec fn wf(&self) -> bool {
        &&& self.skipped_starting_positions@.len() == self.variable_size
        &&& forall|v: int| 0 <= v < self.variable_size ==> (#[trigger] self.skipped_starting_positions@[v])@.len() == self.sequence_size
    }

    /// Whether `position` is ruled out for variable `var` on stream `word`.
    spec fn has(&self, var: int, word: int, position: usize) -> bool {
        &&& 0 <= var < self.skipped_starting_positions@.len()
        &&& 0 <= word < self.skipped_starting_positions@[var]@.len()
        &&& self.skipped_starting_positions@[var]@[word]@.contains(position)
    }

    /// No position ruled out yet.
    fn new(variable_size: usize, sequence_size: usize) -> (r: Self)
        ensures
            r.wf(),
            r.variable_size == variable_size,
            r.sequence_size == sequence_size,
            forall|v: int, w: int, p: usize| 0 <= v < variable_size && 0 <= w < sequence_size ==> !#[trigger] r.has(v, w, p),
    {
        let mut rows: Vec<Vec<Vec<usize>>> = Vec::new();
        for v in 0..variable_size
            invariant
                rows@.len() == v,
                forall|i: int| 0 <= i < v ==> (#[trigger] rows@[i])@.len() == sequence_size,
                forall|i: int, j: int| 0 <= i < v && 0 <= j < sequence_size ==> (#[trigger] rows@[i]@[j])@.len() == 0,
        {
            let mut row: Vec<Vec<usize>> = Vec::new();
            for w in 0..sequence_size
                invariant
                    row@.len() == w,
                    forall|j: int| 0 <= j < w ==> (#[trigger] row@[j])@.len() == 0,
            {
                row.push(Vec::new());
            }
            rows.push(row);
        }
        SkippedStartingPositions { variable_size, sequence_size, skipped_starting_positions: rows }
    }

    /// Rules out `position` for variable `var` on stream `word`.
    fn insert(&mut self, var: usize, word: usize, position: usize)
        requires
            old(self).wf(),
            var < old(self).variable_size,
            word < old(self).sequence_size,
        ensures
            final(self).wf(),
            final(self).variable_size == old(self).variable_size,
            final(self).sequence_size == old(self).sequence_size,
            forall|v: int, w: int, p: usize| #[trigger] final(self).has(v, w, p) <==> (old(self).has(v, w, p)
                || (v == var && w == word && p == position)),
    {
        let mut row: Vec<Vec<usize>> = Vec::new();
        std::mem::swap(&mut row, &mut self.skipped_starting_positions[var]);
        let mut cell: Vec<usize> = Vec::new();
        std::mem::swap(&mut cell, &mut row[word]);
        let ghost cell0 = cell@;
        let mut present = false;
        for i in 0..cell.len()
            invariant
                present == cell0.subrange(0, i as int).contains(position),
                cell@ == cell0,
        {
            if cell[i] == position {
                present = true;
            }
            proof {
                lemma_push_contains(cell0.subrange(0, i as int), cell0[i as int]);
                assert(cell0.subrange(0, i + 1) =~= cell0.subrange(0, i as int).push(cell0[i as int]));
            }
        }
        assert(cell0.subrange(0, cell0.len() as int) =~= cell0);
        if !present {
            cell.push(position);
            proof {
                lemma_push_contains(cell0, position);
            }
        }
        std::mem::swap(&mut cell, &mut row[word]);
        std::mem::swap(&mut row, &mut self.skipped_starting_positions[var]);
        proof {
            assert forall|v: int, w: int, p: usize| #[trigger] self.has(v, w, p) <==> (old(self).has(v, w, p)
                || (v == var && w == word && p == position)) by {
                if 0 <= v < self.skipped_starting_positions@.len() && v != var {
                    assert(self.skipped_starting_positions@[v] == old(self).skipped_starting_positions@[v]);
                } else if v == var && 0 <= w < self.skipped_starting_positions@[v]@.len() && w != word {
                    assert(self.skipped_starting_positions@[v]@[w] == old(self).skipped_starting_positions@[v]@[w]);
                }
            }
        }
    }

    /// Whether `position` is ruled out for variable `var` on stream `word`.
    fn contains(&self, var: usize, word: usize, position: usize) -> (r: bool)
        requires
            self.wf(),
            var < self.variable_size,
            word < self.sequence_size,
        ensures
            r == self.has(var as int, word as int, position),
    {
        assert(self.skipped_starting_positions@[var as int]@.len() == self.sequence_size);
        let cell = &self.skipped_starting_positions[var][word];
        assert(cell@ == self.skipped_starting_positions@[var as int]@[word as int]@);
        for i in 0..cell.len()
            invariant
                self.wf(),
                var < self.variable_size,
                word < self.sequence_size,
                self.skipped_starting_positions@[var as int]@.len() == self.sequence_size,
                cell@ == self.skipped_starting_positions@[var as int]@[word as int]@,
                forall|j: int| 0 <= j < i ==> cell@[j] != position,
        {
            if cell[i] == position {
                assert(cell@[i as int] == position);
                return true;
            }
        }
        false
    }

    /// Whether no index of `start_position` is ruled out: the `i`-th index
    /// is looked up for variable `i` on stream `id[i]`.
    fn matchable(&self, start_position: &StartPosition, id: &Vec<usize>) -> (r: bool)
        requires
            self.wf(),
            start_position.start_indices@.len() == id@.len(),
            id@.len() <= self.variable_size,
            forall|i: int| 0 <= i < id@.len() ==> #[trigger] id@[i] < self.sequence_size,
        ensures
            r == forall|i: int| 0 <= i < id@.len() ==> !#[trigger] self.has(i, id@[i] as int, start_position.start_indices@[i]),
    {
        for i in 0..start_position.start_indices.len()
            invariant
                self.wf(),
                start_position.start_indices@.len() == id@.len(),
                id@.len() <= self.variable_size,
                forall|m: int| 0 <= m < id@.len() ==> #[trigger] id@[m] < self.sequence_size,
                forall|j: int| 0 <= j < i ==> !#[trigger] self.has(j, id@[j] as int, start_position.start_indices@[j]),
        {
            if self.contains(i, id[i], start_position.start_indices[i]) {
                return false;
            }
        }
        true
    }
}

/// The quick-search test of the start position `p` over the streams `id`:
/// for a variable whose shortest projected length `l` is positive, when
/// the stream ends before the window of `l` letters from the variable's
/// start position does, it reads the window's last letter; if no accepted
/// word ends its projection with that letter, the positions from the start
/// position on are ruled out by the skip value of the letter after the
/// window, and the test answers true. As written, the window's last letter
/// is read only when the stream ends before it, so it is never there: the
/// test answers false and rules nothing out.
fn quick_search_skips(
    skipped: &mut SkippedStartingPositions,
    qs: &QuickSearchSkipValues,
    sequences: &Vec<AppendOnlySequence<String>>,
    id: &Vec<usize>,
    p: &StartPosition,
) -> (r: bool)
    requires
        old(skipped).wf(),
        qs.wf(),
        qs.num_tables() == id@.len(),
        qs.last_accepted_word@.len() == id@.len(),
        p.start_indices@.len() == id@.len(),
        forall|i: int| 0 <= i < id@.len() ==> #[trigger] id@[i] < sequences@.len(),
        old(skipped).variable_size == id@.len(),
        old(skipped).sequence_size == sequences@.len(),
    ensures
        !r,
        *final(skipped) == *old(skipped),
{
    for var in 0..id.len()
        invariant
            skipped.wf(),
            *skipped == *old(skipped),
            qs.wf(),
            qs.num_tables() == id@.len(),
            qs.last_accepted_word@.len() == id@.len(),
            p.start_indices@.len() == id@.len(),
            forall|i: int| 0 <= i < id@.len() ==> #[trigger] id@[i] < sequences@.len(),
    {
        let w = id[var];
        let start_index = p.start_indices[var];
        let shortest_matching_length = qs.shortest_accepted_word_length_map[var];
        if shortest_matching_length > 0 && start_index <= usize::MAX - shortest_matching_length {
            let shortest_end_index = start_index + shortest_matching_length - 1;
            let next_index = start_index + shortest_matching_length;
            let sequence = &sequences[w];
            if sequence.len() < start_index + shortest_matching_length {
                match sequence.get(shortest_end_index) {
                    Some(last) => {
                        if !contains_string(&qs.last_accepted_word[var], last) {
                            match sequence.get(next_index) {
                                Some(next) => {
                                    let skipped_width = qs.skip_value(next.as_str(), var);
                                    for i in 0..skipped_width
                                        invariant
                                            skipped.wf(),
                                            var < skipped.variable_size,
                                            w < skipped.sequence_size,
                                    {
                                        if start_index <= usize::MAX - i {
                                            skipped.insert(var, w, start_index + i);
                                        }
                                    }
                                    return true;
                                },
                                None => {},
                            }
                        }
                    },
                    None => {},
                }
            }
        }
    }
    false
}

/// A matching for the tuple `ids` began from the `d`-th start position of
/// the queue `q` (none if `d` is its length): `fq`, the queue left, is
/// empty when none began, and otherwise holds only later start positions,
/// and `cs` holds the configurations the matching starts with.
spec fn trial_from(
    aut: Automata<(String, usize)>,
    streams: Seq<Seq<Seq<char>>>,
    ids: Seq<usize>,
    q: Seq<StartPosition>,
    d: int,
    fq: Seq<StartPosition>,
    cs: Seq<ConfigView>,
) -> bool {
    &&& 0 <= d <= q.len()
    &&& d == q.len() ==> fq.len() == 0
    &&& d < q.len() ==> forall|j: int| 0 <= j < fq.len() ==> position_less(q[d].start_indices@, #[trigger] fq[j].start_indices@)
    &&& d < q.len() ==> forall|c: ConfigView| #[trigger] trial_config(aut, streams, ids, q[d].start_indices@, c) ==> cs.contains(c)
}

/// The position that the `j`-th step after the matching begin of variable
/// `v` in configuration `c` stands on.
spec fn skip_target(c: ConfigView, v: int, j: int) -> int {
    c.2[v] + j
}

/// The KMP-style skip value of configuration `c` for variable `v`: that of
/// its state.
spec fn kmp_skip_of(skips: Seq<Vec<usize>>, c: ConfigView, v: int) -> int {
    skips[v]@[c.0 as int] as int
}

/// The `ci`-th configuration of `cs` reads stream `w` in dimension `v`,
/// and `p` lies `j` positions after its matching begin there, with
/// `0 < j <` its skip value for `v`.
spec fn kmp_step(skips: Seq<Vec<usize>>, cs: Seq<ConfigView>, ci: int, v: int, j: int, w: int, p: int) -> bool {
    &&& 0 <= ci < cs.len()
    &&& 0 <= v < cs[ci].3.len()
    &&& cs[ci].3[v] == w
    &&& 1 <= j < kmp_skip_of(skips, cs[ci], v)
    &&& p == skip_target(cs[ci], v, j)
}

/// `(ci, v, j)` comes before `(nc, nv, nj)` in the order of configuration,
/// variable and step count.
spec fn step_before(ci: int, v: int, j: int, nc: int, nv: int, nj: int) -> bool {
    ci < nc || (ci == nc && (v < nv || (v == nv && j < nj)))
}

/// Position `p` of stream `w` is ruled out for variable `v` by a step of
/// `kmp_step` that comes before `(nc, nv, nj)`.
spec fn kmp_marked(skips: Seq<Vec<usize>>, cs: Seq<ConfigView>, nc: int, nv: int, nj: int, v: int, w: int, p: int) -> bool {
    exists|ci: int, j: int| #[trigger] kmp_step(skips, cs, ci, v, j, w, p) && step_before(ci, v, j, nc, nv, nj)
}

/// In a queue sorted without repeats, the positions from `q[d]` on other
/// than `q[d]` are those after it.
proof fn lemma_sorted_tail(q: Seq<Seq<usize>>, d: int, x: Seq<usize>)
    requires
        sorted_positions(q),
        0 <= d < q.len(),
    ensures
        (q.subrange(d, q.len() as int).contains(x) && x != q[d]) <==> q.subrange(d + 1, q.len() as int).contains(x),
{
    let t0 = q.subrange(d, q.len() as int);
    let t1 = q.subrange(d + 1, q.len() as int);
    if t0.contains(x) && x != q[d] {
        let j = choose|j: int| 0 <= j < t0.len() && t0[j] == x;
        assert(j > 0);
        assert(t1[j - 1] == x);
    }
    if t1.contains(x) {
        let j = choose|j: int| 0 <= j < t1.len() && t1[j] == x;
        assert(t0[j + 1] == x);
        assert(position_less(q[d], q[d + 1 + j]));
        if x == q[d] {
            lemma_lex_irreflexive(x, 0);
        }
    }
}

/// Two bounds that let through the same steps mark the same positions.
proof fn lemma_marked_equiv(
    skips: Seq<Vec<usize>>,
    cs: Seq<ConfigView>,
    b1: (int, int, int),
    b2: (int, int, int),
    v: int,
    w: int,
    p: int,
)
    requires
        forall|ci: int, j: int| #[trigger] kmp_step(skips, cs, ci, v, j, w, p) ==> (step_before(ci, v, j, b1.0, b1.1, b1.2)
            <==> step_before(ci, v, j, b2.0, b2.1, b2.2)),
    ensures
        kmp_marked(skips, cs, b1.0, b1.1, b1.2, v, w, p) <==> kmp_marked(skips, cs, b2.0, b2.1, b2.2, v, w, p),
{
    if kmp_marked(skips, cs, b1.0, b1.1, b1.2, v, w, p) {
        let (ci, j) = choose|ci: int, j: int| #[trigger] kmp_step(skips, cs, ci, v, j, w, p) && step_before(ci, v, j, b1.0, b1.1, b1.2);
        assert(kmp_step(skips, cs, ci, v, j, w, p) && step_before(ci, v, j, b2.0, b2.1, b2.2));
    }
    if kmp_marked(skips, cs, b2.0, b2.1, b2.2, v, w, p) {
        let (ci, j) = choose|ci: int, j: int| #[trigger] kmp_step(skips, cs, ci, v, j, w, p) && step_before(ci, v, j, b2.0, b2.1, b2.2);
        assert(kmp_step(skips, cs, ci, v, j, w, p) && step_before(ci, v, j, b1.0, b1.1, b1.2));
    }
}

/// Position `p` of stream `w` is ruled out for variable `v` by the skip
/// value of some configuration of `cs`.
spec fn kmp_rules_out(skips: Seq<Vec<usize>>, cs: Seq<ConfigView>, v: int, w: int, p: int) -> bool {
    kmp_marked(skips, cs, cs.len() as int, 0, 1, v, w, p)
}


/// Hyper pattern matching with skip values in the style of
/// Franek-Jennings-Smyth: like the naive matching it runs one trial at a
/// time for every tuple of streams, from start positions taken in
/// increasing lexicographic order, but start positions that the KMP-style
/// skip values of the states reached rule out are passed over.
pub struct FJSHyperPatternMatching<'a, Notifier: ResultNotifier> {
    automata_runner: PatternMatchingAutomataRunner<'a>,
    notifier: Notifier,
    sequences: Vec<AppendOnlySequence<String>>,
    read_size: Vec<usize>,
    waiting_queues: Vec<(Vec<usize>, Vec<StartPosition>)>,
    /// The start positions ruled out by the skip values.
    skipped_starting_positions: SkippedStartingPositions,
    quick_search_skip_value: QuickSearchSkipValues,
    kmp_skip_value: KMPSkipValues,
    eof: Vec<bool>,
    reported: Ghost<Seq<MatchingReport>>,
}

impl<'a, Notifier: ResultNotifier> FJSHyperPatternMatching<'a, Notifier> {
    /// The automaton being run.
    pub closed spec fn automaton(&self) -> Automata<(String, usize)> {
        self.automata_runner.automaton()
    }

    /// The contents of the streams.
    pub closed spec fn streams(&self) -> Seq<Seq<Seq<char>>> {
        streams_of(self.sequences@)
    }

    /// The current configurations.
    pub closed spec fn configs(&self) -> Seq<ConfigView> {
        self.automata_runner.configs()
    }

    /// The number of tuples of streams.
    pub closed spec fn num_tuples(&self) -> nat {
        self.waiting_queues@.len()
    }

    /// The `k`-th tuple of streams: the stream each variable reads.
    pub closed spec fn tuple(&self, k: int) -> Seq<usize> {
        self.waiting_queues@[k].0@
    }

    /// The start positions waiting for the `k`-th tuple, in increasing
    /// order.
    pub closed spec fn queue_of(&self, k: int) -> Seq<Seq<usize>> {
        queue_view(self.waiting_queues@[k].1@)
    }

    /// Configuration `c` waits for input: one of its variables has read
    /// all of a stream that has not been closed.
    pub closed spec fn waits(&self, c: ConfigView) -> bool {
        waiting_view(self.sequences@, c)
    }

    /// After running from the configurations of `before` over the current
    /// streams and keeping those that wait, one of them reads the `k`-th
    /// tuple.
    pub open spec fn kept_runs(&self, before: Self, k: int) -> bool {
        exists|c: ConfigView|
            derivable(self.automaton(), self.streams(), before.configs(), c) && #[trigger] self.waits(c) && c.3
                == before.tuple(k)
    }

    /// The start position `p` of the tuple of streams `ids` is ruled out by
    /// the skip values found so far: for some variable `i`, its index is
    /// ruled out on stream `ids[i]`.
    pub closed spec fn ruled_out(&self, ids: Seq<usize>, p: Seq<usize>) -> bool {
        exists|i: int| 0 <= i < ids.len() && #[trigger] self.skipped_starting_positions.has(i, ids[i] as int, p[i])
    }

    /// The KMP-style skip value of the state `q` for the variable `v`.
    pub closed spec fn kmp_skip(&self, v: int, q: int) -> int {
        self.kmp_skip_value.skip_values@[v]@[q] as int
    }

    /// `q[d]` is the first start position of `q` that is not ruled out.
    pub open spec fn first_open(&self, ids: Seq<usize>, q: Seq<Seq<usize>>, d: int) -> bool {
        &&& 0 <= d < q.len()
        &&& !self.ruled_out(ids, q[d])
        &&& forall|j: int| 0 <= j < d ==> #[trigger] self.ruled_out(ids, q[j])
    }

    /// After a trial from `q[d]`, the queue `fq` holds the positions of `q`
    /// after `q[d]`, together with each immediate successor of `q[d]` that
    /// is in range and not ruled out.
    pub open spec fn queue_after(&self, ids: Seq<usize>, q: Seq<Seq<usize>>, d: int, fq: Seq<Seq<usize>>) -> bool {
        d < q.len() ==> forall|x: Seq<usize>| #[trigger] fq.contains(x) <==> (q.subrange(d + 1, q.len() as int).contains(x)
            || (next_position(q[d], x) && self.in_range_spec(x, ids) && !self.ruled_out(ids, x)))
    }

    /// Every start position of `q` is ruled out.
    pub open spec fn all_ruled_out(&self, ids: Seq<usize>, q: Seq<Seq<usize>>) -> bool {
        forall|j: int| 0 <= j < q.len() ==> #[trigger] self.ruled_out(ids, q[j])
    }

    /// `path` goes from its first start position to its last through
    /// immediate successors, each in range for the tuple `ids` and not
    /// ruled out.
    pub open spec fn steps(&self, ids: Seq<usize>, path: Seq<Seq<usize>>) -> bool {
        &&& path.len() > 0
        &&& forall|j: int| 0 <= j < path.len() - 1 ==> next_position(#[trigger] path[j], path[j + 1])
            && self.in_range_spec(path[j + 1], ids) && !self.ruled_out(ids, path[j + 1])
    }

    /// The `k`-th tuple waits for the first start position of `path`, which
    /// leads through successors that are in range and not ruled out to its
    /// last one, and a matching from the last one reaches the configuration
    /// `c` at a final state.
    pub open spec fn path_owed(&self, k: int, path: Seq<Seq<usize>>, c: ConfigView) -> bool {
        &&& 0 <= k < self.num_tuples()
        &&& self.queue_of(k).contains(path[0])
        &&& self.steps(self.tuple(k), path)
        &&& trial_derivable(self.automaton(), self.streams(), self.tuple(k), path.last(), c)
        &&& self.automaton().final_at(c.0 as int)
    }

    /// Every matching handed to the notifier so far, in order.
    pub closed spec fn reported(&self) -> Seq<MatchingReport> {
        self.reported@
    }

    /// Whether the stream `t` has ended.
    pub closed spec fn is_eof(&self, t: int) -> bool {
        0 <= t < self.eof@.len() && self.eof@[t]
    }

    /// The number of lines read from the stream `t`.
    pub closed spec fn read_count(&self, t: int) -> nat {
        self.read_size@[t] as nat
    }

    /// The number of streams.
    pub closed spec fn num_tracks(&self) -> nat {
        self.sequences@.len()
    }

    /// A tuple of streams, one per variable.
    pub closed spec fn key_ok(&self, id: Seq<usize>) -> bool {
        &&& id.len() == self.automaton().dimensions
        &&& forall|i: int| 0 <= i < id.len() ==> #[trigger] id[i] < self.sequences@.len()
    }

    /// The waiting queue of `k` is sorted and holds a position per variable.
    pub closed spec fn queue_ok(&self, k: int) -> bool {
        &&& self.key_ok(self.waiting_queues@[k].0@)
        &&& sorted_positions(queue_view(self.waiting_queues@[k].1@))
        &&& forall|j: int| 0 <= j < self.waiting_queues@[k].1@.len()
            ==> (#[trigger] self.waiting_queues@[k].1@[j]).start_indices@.len() == self.automaton().dimensions
    }

    /// No index of `x` lies at or past the end of an ended stream of `ids`.
    pub open spec fn in_range_spec(&self, x: Seq<usize>, ids: Seq<usize>) -> bool {
        forall|i: int| 0 <= i < ids.len() ==> !(self.is_eof(#[trigger] ids[i] as int) && x[i] >= self.read_count(ids[i] as int))
    }

    /// There is a line count and an end mark per stream.
    pub closed spec fn tracks_ok(&self) -> bool {
        &&& self.read_size@.len() == self.sequences@.len()
        &&& self.eof@.len() == self.sequences@.len()
    }

    /// The skip tables have an entry per variable and per state, and the
    /// skipped positions a set per variable and per stream; there are as
    /// many streams as variables.
    pub closed spec fn skips_ok(&self) -> bool {
        &&& self.sequences@.len() <= self.automaton().dimensions
        &&& self.skipped_starting_positions.wf()
        &&& self.skipped_starting_positions.variable_size == self.automaton().dimensions
        &&& self.skipped_starting_positions.sequence_size == self.sequences@.len()
        &&& self.kmp_skip_value.skip_values@.len() == self.automaton().dimensions
        &&& forall|v: int| 0 <= v < self.automaton().dimensions
            ==> (#[trigger] self.kmp_skip_value.skip_values@[v])@.len() == self.automaton().num_states()
        &&& self.quick_search_skip_value.wf()
        &&& self.quick_search_skip_value.num_tables() == self.automaton().dimensions
        &&& self.quick_search_skip_value.last_accepted_word@.len() == self.automaton().dimensions
    }

    /// The internal state is consistent.
    pub closed spec fn wf(&self) -> bool {
        &&& self.automata_runner.inv(streams_of(self.sequences@))
        &&& self.skips_ok()
        &&& self.tracks_ok()
        &&& forall|t: int| 0 <= t < self.sequences@.len() ==> #[trigger] self.read_size@[t] <= self.sequences@[t].items().len()
        &&& forall|t: int| 0 <= t < self.sequences@.len() && #[trigger] self.eof@[t] ==> self.sequences@[t].is_closed_spec()
        &&& forall|k: int| 0 <= k < self.waiting_queues@.len() ==> #[trigger] self.queue_ok(k)
        &&& tuples_distinct(self.waiting_queues@)
    }

    /// Starts a matching over `sequences` for every tuple of streams, from
    /// the first position of each; the next start positions wait in a queue.
    /// The skip values are computed from the automaton, which must accept
    /// some word; there must be no more streams than variables.
    pub fn new(
        automaton: &'a Automata<(String, usize)>,
        notifier: Notifier,
        sequences: Vec<AppendOnlySequence<String>>,
    ) -> (r: Self)
        requires
            automaton.wf(),
            exists|n: nat| #[trigger] automaton.accepts_in(n),
            sequences@.len() <= automaton.dimensions,
        ensures
            r.wf(),
            r.automaton() == *automaton,
            r.streams() == streams_of(sequences@),
            r.reported() == Seq::<MatchingReport>::empty(),
            r.num_tracks() == sequences@.len(),
            forall|t: int| !#[trigger] r.is_eof(t),
            forall|ids: Seq<usize>, p: Seq<usize>| !#[trigger] r.ruled_out(ids, p),
            forall|v: int, q: int| 0 <= v < automaton.dimensions && 0 <= q < automaton.num_states()
                ==> skip_value_of(*automaton, v as nat, q as usize, #[trigger] r.kmp_skip(v, q) as nat),
    {
        let n = sequences.len();
        let dims = automaton.dimensions;
        let mut automata_runner = PatternMatchingAutomataRunner::new(automaton);
        let mut read_size: Vec<usize> = Vec::new();
        let mut eof: Vec<bool> = Vec::new();
        for t in 0..n
            invariant
                read_size@.len() == t,
                eof@.len() == t,
                forall|k: int| 0 <= k < t ==> read_size@[k] == 0 && !eof@[k],
        {
            read_size.push(0);
            eof.push(false);
        }
        let mut zeros: Vec<usize> = Vec::new();
        for i in 0..dims
            invariant
                zeros@.len() == i,
                forall|k: int| 0 <= k < i ==> zeros@[k] == 0,
        {
            zeros.push(0);
        }
        let origin = StartPosition { start_indices: zeros };
        let successors = origin.immediate_successors();
        let mut first_queue: Vec<StartPosition> = Vec::new();
        for i in 0..successors.len()
            invariant
                successors@.len() == dims,
                forall|k: int| 0 <= k < successors@.len() ==> (#[trigger] successors@[k]).start_indices@.len() == dims,
                sorted_positions(queue_view(first_queue@)),
                forall|j: int| 0 <= j < first_queue@.len() ==> (#[trigger] first_queue@[j]).start_indices@.len() == dims,
        {
            let p = copy_start_position(&successors[i]);
            let ghost before = queue_view(first_queue@);
            insert_start_position(&mut first_queue, p);
            proof {
                assert forall|j: int| 0 <= j < first_queue@.len() implies (#[trigger] first_queue@[j]).start_indices@.len() == dims by {
                    assert(queue_view(first_queue@).contains(queue_view(first_queue@)[j]));
                    if before.contains(queue_view(first_queue@)[j]) {
                        let m = choose|m: int| 0 <= m < before.len() && before[m] == queue_view(first_queue@)[j];
                    }
                }
            }
        }
        let ids = index_tuples(n, dims);
        let mut waiting_queues: Vec<(Vec<usize>, Vec<StartPosition>)> = Vec::new();
        let ghost streams = streams_of(sequences@);
        for k in 0..ids.len()
            invariant
                automaton.wf(),
                n == sequences@.len(),
                dims == automaton.dimensions,
                streams == streams_of(sequences@),
                automata_runner.inv(streams),
                automata_runner.automaton() == *automaton,
                waiting_queues@.len() == k,
                forall|m: int| 0 <= m < ids@.len() ==> (#[trigger] ids@[m])@.len() == dims,
                forall|m: int, i: int| 0 <= m < ids@.len() && 0 <= i < dims ==> #[trigger] ids@[m]@[i] < n,
                sorted_positions(queue_view(first_queue@)),
                forall|j: int| 0 <= j < first_queue@.len() ==> (#[trigger] first_queue@[j]).start_indices@.len() == dims,
                forall|j: int, m: int| 0 <= j < m < ids@.len() ==> lex_less(ids@[j]@, ids@[m]@),
                forall|m: int| 0 <= m < k ==> {
                    &&& (#[trigger] waiting_queues@[m]).0@ == ids@[m]@
                    &&& waiting_queues@[m].0@.len() == dims
                    &&& forall|i: int| 0 <= i < dims ==> #[trigger] waiting_queues@[m].0@[i] < n
                    &&& sorted_positions(queue_view(waiting_queues@[m].1@))
                    &&& forall|j: int| 0 <= j < waiting_queues@[m].1@.len()
                        ==> (#[trigger] waiting_queues@[m].1@[j]).start_indices@.len() == dims
                },
        {
            let mut views: Vec<ReadableView> = Vec::new();
            for i in 0..dims
                invariant
                    views@.len() == i,
                    forall|j: int| 0 <= j < i ==> (#[trigger] views@[j]).start == 0,
            {
                views.push(ReadableView::new());
            }
            let mut queue: Vec<StartPosition> = Vec::new();
            for j in 0..first_queue.len()
                invariant
                    queue@.len() == j,
                    forall|m: int| 0 <= m < j ==> (#[trigger] queue@[m]).start_indices@ == first_queue@[m].start_indices@,
            {
                queue.push(copy_start_position(&first_queue[j]));
            }
            assert(queue_view(queue@) =~= queue_view(first_queue@));
            let id = copy_positions(&ids[k]);
            let ghost old_cfgs = automata_runner.configs();
            automata_runner.insert_from_initial_states(views, copy_positions(&ids[k]));
            proof {
                assert forall|j: int| 0 <= j < automata_runner.configs().len() implies config_valid(*automaton, streams, #[trigger] automata_runner.configs()[j]) by {
                    let c = automata_runner.configs()[j];
                    assert(automata_runner.configs().contains(c));
                    if !old_cfgs.contains(c) {
                        let i = choose|i: int| 0 <= i < automaton.initial_states@.len() && c == (
                            #[trigger] automaton.initial_states@[i],
                            starts_of(views@),
                            starts_of(views@),
                            ids@[k as int]@,
                        );
                        assert(automaton.initial_states@[i] < automaton.num_states());
                        assert forall|m: int| 0 <= m < c.1.len() implies #[trigger] c.3[m] < streams.len() && c.1[m] <= streams[c.3[m] as int].len() by {
                            assert(views@[m].start == 0);
                        }
                    } else {
                        let m = choose|m: int| 0 <= m < old_cfgs.len() && old_cfgs[m] == c;
                    }
                }
            }
            waiting_queues.push((id, queue));
        }
        proof {
            let m = choose|m: nat| #[trigger] automaton.accepts_in(m);
            automaton.lemma_accepts_short(m);
            assert(automaton.num_states() == automaton.states.len());
        }
        let quick_search_skip_value = QuickSearchSkipValues::new(automaton);
        let kmp_skip_value = KMPSkipValues::new(automaton);
        let skipped_starting_positions = SkippedStartingPositions::new(dims, n);
        let r = Self {
            automata_runner,
            notifier,
            sequences,
            read_size,
            waiting_queues,
            skipped_starting_positions,
            quick_search_skip_value,
            kmp_skip_value,
            eof,
            reported: Ghost(Seq::empty()),
        };
        proof {
            assert forall|k: int| 0 <= k < r.waiting_queues@.len() implies #[trigger] r.queue_ok(k) by {
                assert(r.waiting_queues@[k].0@.len() == dims);
            }
            assert forall|ids: Seq<usize>, p: Seq<usize>| !#[trigger] r.ruled_out(ids, p) by {
                if r.ruled_out(ids, p) {
                    let i = choose|i: int| 0 <= i < ids.len() && #[trigger] r.skipped_starting_positions.has(i, ids[i] as int, p[i]);
                }
            }
            assert forall|a: int, b: int| 0 <= a < r.waiting_queues@.len() && 0 <= b < r.waiting_queues@.len() && a != b
                implies (#[trigger] r.waiting_queues@[a]).0@ != (#[trigger] r.waiting_queues@[b]).0@ by {
                if a < b {
                    assert(lex_less(ids@[a]@, ids@[b]@));
                    if ids@[a]@ == ids@[b]@ {
                        lemma_lex_irreflexive(ids@[a]@, 0);
                    }
                } else {
                    assert(lex_less(ids@[b]@, ids@[a]@));
                    if ids@[a]@ == ids@[b]@ {
                        lemma_lex_irreflexive(ids@[a]@, 0);
                    }
                }
            }
        }
        r
    }
}


impl<'a, Notifier: ResultNotifier> FJSHyperPatternMatching<'a, Notifier> {
    /// Whether `start_position` may still start a matching over the streams
    /// `ids`: no index lies at or past the end of an ended stream.
    pub fn in_range(&self, start_position: &StartPosition, ids: &Vec<usize>) -> (r: bool)
        requires
            self.tracks_ok(),
            start_position.start_indices@.len() == ids@.len(),
            forall|i: int| 0 <= i < ids@.len() ==> #[trigger] ids@[i] < self.num_tracks(),
        ensures
            r == forall|i: int| 0 <= i < ids@.len() ==> !(self.is_eof(#[trigger] ids@[i] as int)
                && start_position.start_indices@[i] >= self.read_count(ids@[i] as int)),
    {
        for i in 0..start_position.start_indices.len()
            invariant
                self.tracks_ok(),
                start_position.start_indices@.len() == ids@.len(),
                forall|i: int| 0 <= i < ids@.len() ==> #[trigger] ids@[i] < self.num_tracks(),
                forall|k: int| 0 <= k < i ==> !(self.is_eof(#[trigger] ids@[k] as int)
                    && start_position.start_indices@[k] >= self.read_size@[ids@[k] as int]),
        {
            if self.eof[ids[i]] && start_position.start_indices[i] >= self.read_size[ids[i]] {
                return false;
            }
        }
        true
    }

    /// Hands every configuration at a final state to the notifier.
    fn report_finals(&mut self)
        requires
            old(self).wf(),
        ensures
            final(self).wf(),
            final(self).automaton() == old(self).automaton(),
            final(self).streams() == old(self).streams(),
            final(self).configs() == old(self).configs(),
            final(self).num_tracks() == old(self).num_tracks(),
            forall|t: int| #[trigger] final(self).is_eof(t) == old(self).is_eof(t),
            final(self).sequences@ == old(self).sequences@,
            final(self).read_size@ == old(self).read_size@,
            final(self).waiting_queues@ == old(self).waiting_queues@,
            final(self).eof@ == old(self).eof@,
            final(self).skipped_starting_positions == old(self).skipped_starting_positions,
            final(self).kmp_skip_value == old(self).kmp_skip_value,
            final(self).reported() == old(self).reported() + reports_of(keep_final(old(self).automaton(), old(self).configs())),
    {
        let ghost aut = self.automaton();
        let ghost cs = self.configs();
        let ghost streams = streams_of(self.sequences@);
        proof {
            assert forall|j: int| 0 <= j < cs.len() implies (#[trigger] cs[j]).0 < aut.num_states() by {
                assert(config_valid(aut, streams, cs[j]));
            }
        }
        let finals = self.automata_runner.get_final_configurations();
        let ghost start = self.reported@;
        let ghost seqs0 = self.sequences@;
        let ghost rs0 = self.read_size@;
        let ghost wq0 = self.waiting_queues@;
        let ghost eof0 = self.eof@;
        let ghost skipped0 = self.skipped_starting_positions;
        let ghost kmp0 = self.kmp_skip_value;
        let ghost runner0 = self.automata_runner;
        proof {
            assert forall|j: int| 0 <= j < finals@.len() implies (#[trigger] finals@[j]).matching_begin@.len() == finals@[j].input_sequence@.len() by {
                let x = finals@[j]@;
                assert(finals@.map_values(|c: &PatternMatchingAutomataConfiguration| c@)[j] == x);
                assert(keep_final(aut, cs).contains(x));
                lemma_keep_final_contains(aut, cs, x);
                let m = choose|m: int| 0 <= m < cs.len() && cs[m] == x;
                assert(config_valid(aut, streams, cs[m]));
                assert(starts_of(finals@[j].input_sequence@).len() == finals@[j].input_sequence@.len());
            }
        }
        for i in 0..finals.len()
            invariant
                self.wf(),
                self.automaton() == aut,
                self.configs() == cs,
                self.sequences@ == seqs0,
                self.read_size@ == rs0,
                self.waiting_queues@ == wq0,
                self.eof@ == eof0,
                self.skipped_starting_positions == skipped0,
                self.kmp_skip_value == kmp0,
                self.automata_runner == runner0,
                finals@.map_values(|c: &PatternMatchingAutomataConfiguration| c@) == keep_final(aut, cs),
                self.reported@ == start + reports_of(keep_final(aut, cs).subrange(0, i as int)),
                forall|j: int| 0 <= j < finals@.len() ==> (#[trigger] finals@[j]).matching_begin@.len() == finals@[j].input_sequence@.len(),
        {
            let c = finals[i];
            let intervals = intervals_of(c);
            let ghost before = *self;
            self.notifier.notify(intervals.as_slice(), c.ids.as_slice());
            proof {
                assert(keep_final(aut, cs)[i as int] == c@);
                self.reported@ = self.reported@.push(report_of(c@));
                assert(reports_of(keep_final(aut, cs).subrange(0, i + 1)) =~= reports_of(keep_final(aut, cs).subrange(0, i as int)).push(report_of(c@)));
                assert forall|k: int| 0 <= k < self.waiting_queues@.len() implies #[trigger] self.queue_ok(k) by {
                    assert(before.queue_ok(k));
                }
            }
        }
        proof {
            assert(keep_final(aut, cs).subrange(0, finals@.len() as int) =~= keep_final(aut, cs));
        }
    }
}


impl<'a, Notifier: ResultNotifier> FJSHyperPatternMatching<'a, Notifier> {
    /// Takes the smallest waiting start position of the `k`-th tuple of
    /// streams, queues those of its immediate successors that are still in
    /// range and not ruled out, and starts a matching from it.
    fn start_trial(&mut self, k: usize)
        requires
            old(self).wf(),
            k < old(self).waiting_queues@.len(),
        ensures
            final(self).wf(),
            final(self).automaton() == old(self).automaton(),
            final(self).sequences@ == old(self).sequences@,
            final(self).read_size@ == old(self).read_size@,
            final(self).eof@ == old(self).eof@,
            final(self).reported() == old(self).reported(),
            final(self).skipped_starting_positions == old(self).skipped_starting_positions,
            final(self).kmp_skip_value == old(self).kmp_skip_value,
            final(self).waiting_queues@.len() == old(self).waiting_queues@.len(),
            forall|m: int| 0 <= m < old(self).waiting_queues@.len() && m != k ==> #[trigger] final(self).waiting_queues@[m] == old(self).waiting_queues@[m],
            final(self).waiting_queues@[k as int].0@ == old(self).waiting_queues@[k as int].0@,
            old(self).waiting_queues@[k as int].1@.len() == 0 ==> final(self).waiting_queues@[k as int].1@ == old(self).waiting_queues@[k as int].1@,
            old(self).waiting_queues@[k as int].1@.len() > 0 ==> forall|j: int| 0 <= j < final(self).waiting_queues@[k as int].1@.len() ==> position_less(
                old(self).waiting_queues@[k as int].1@[0].start_indices@,
                #[trigger] final(self).waiting_queues@[k as int].1@[j].start_indices@,
            ),
            forall|j: int| 0 <= j < final(self).waiting_queues@[k as int].1@.len() ==> queue_view(old(self).waiting_queues@[k as int].1@).contains(
                #[trigger] final(self).waiting_queues@[k as int].1@[j].start_indices@,
            ) || old(self).in_range_spec(final(self).waiting_queues@[k as int].1@[j].start_indices@, final(self).waiting_queues@[k as int].0@),
            old(self).waiting_queues@[k as int].1@.len() == 0 ==> final(self).configs() == old(self).configs()
                && final(self).waiting_queues@ == old(self).waiting_queues@,
            old(self).waiting_queues@[k as int].1@.len() > 0 ==> forall|c: ConfigView| #[trigger] final(self).configs().contains(c)
                <==> (old(self).configs().contains(c) || trial_config(
                old(self).automaton(),
                old(self).streams(),
                old(self).waiting_queues@[k as int].0@,
                old(self).waiting_queues@[k as int].1@[0].start_indices@,
                c,
            )),
            forall|x: Seq<usize>| #[trigger] queue_view(old(self).waiting_queues@[k as int].1@).contains(x)
                && x != queue_view(old(self).waiting_queues@[k as int].1@)[0] ==> queue_view(
                final(self).waiting_queues@[k as int].1@,
            ).contains(x),
            old(self).waiting_queues@[k as int].1@.len() > 0 ==> forall|x: Seq<usize>|
                #[trigger] queue_view(final(self).waiting_queues@[k as int].1@).contains(x) <==> ((queue_view(
                    old(self).waiting_queues@[k as int].1@,
                ).contains(x) && x != queue_view(old(self).waiting_queues@[k as int].1@)[0]) || (next_position(
                    queue_view(old(self).waiting_queues@[k as int].1@)[0],
                    x,
                ) && old(self).in_range_spec(x, old(self).waiting_queues@[k as int].0@)
                    && !old(self).ruled_out(old(self).waiting_queues@[k as int].0@, x))),
    {
        let ghost aut = self.automaton();
        let ghost streams = streams_of(self.sequences@);
        let ghost before = *self;
        let mut entry: (Vec<usize>, Vec<StartPosition>) = (Vec::new(), Vec::new());
        std::mem::swap(&mut entry, &mut self.waiting_queues[k]);
        let ghost qv0 = queue_view(entry.1@);
        proof {
            assert(before.queue_ok(k as int));
            assert(entry.0@ == before.waiting_queues@[k as int].0@);
        }
        if entry.1.len() > 0 {
            let p = entry.1.remove(0);
            let ghost pv = p.start_indices@;
            proof {
                assert(queue_view(entry.1@) =~= qv0.drop_first());
                assert(pv == qv0[0]);
                assert forall|j: int| 0 <= j < entry.1@.len() implies (#[trigger] entry.1@[j]).start_indices@.len() == aut.dimensions by {
                    assert(entry.1@[j] == before.waiting_queues@[k as int].1@[j + 1]);
                }
                assert forall|j: int| 0 <= j < queue_view(entry.1@).len() implies position_less(pv, #[trigger] queue_view(entry.1@)[j]) by {
                    assert(queue_view(entry.1@)[j] == qv0[j + 1]);
                }
                assert forall|x: Seq<usize>| #[trigger] queue_view(entry.1@).contains(x) implies qv0.contains(x) by {
                    let j = choose|j: int| 0 <= j < queue_view(entry.1@).len() && queue_view(entry.1@)[j] == x;
                    assert(qv0[j + 1] == x);
                }
                assert forall|x: Seq<usize>| #[trigger] qv0.contains(x) && x != qv0[0] implies queue_view(entry.1@).contains(x) by {
                    let j = choose|j: int| 0 <= j < qv0.len() && qv0[j] == x;
                    assert(j > 0);
                    assert(queue_view(entry.1@)[j - 1] == x);
                }
                assert forall|x: Seq<usize>| #[trigger] queue_view(entry.1@).contains(x) implies x != qv0[0] by {
                    let j = choose|j: int| 0 <= j < queue_view(entry.1@).len() && queue_view(entry.1@)[j] == x;
                    assert(position_less(pv, queue_view(entry.1@)[j]));
                    if x == qv0[0] {
                        lemma_lex_irreflexive(pv, 0);
                    }
                }
            }
            if all_below_max(&p) {
                let succs = p.immediate_successors();
                for i in 0..succs.len()
                    invariant
                        sorted_positions(queue_view(entry.1@)),
                        forall|j: int| 0 <= j < entry.1@.len() ==> (#[trigger] entry.1@[j]).start_indices@.len() == aut.dimensions,
                        succs@.len() == pv.len(),
                        forall|m: int| 0 <= m < succs@.len() ==> #[trigger] succs@[m].start_indices@ == pv.update(
                            m,
                            (pv[m] + 1) as usize,
                        ),
                        pv.len() == aut.dimensions,
                        forall|m: int| 0 <= m < pv.len() ==> pv[m] < usize::MAX,
                        entry.0@ == before.waiting_queues@[k as int].0@,
                        entry.0@.len() == aut.dimensions,
                        forall|j: int| 0 <= j < entry.0@.len() ==> #[trigger] entry.0@[j] < self.num_tracks(),
                        self.tracks_ok(),
                        self.skipped_starting_positions.wf(),
                        self.skipped_starting_positions.variable_size == aut.dimensions,
                        self.skipped_starting_positions.sequence_size == self.num_tracks(),
                        self.num_tracks() <= aut.dimensions,
                        self.eof@ == before.eof@,
                        self.read_size@ == before.read_size@,
                        forall|j: int| 0 <= j < queue_view(entry.1@).len() ==> position_less(pv, #[trigger] queue_view(entry.1@)[j]),
                        forall|x: Seq<usize>| #[trigger] queue_view(entry.1@).contains(x) ==> qv0.contains(x) || before.in_range_spec(x, entry.0@),
                        forall|x: Seq<usize>| #[trigger] qv0.contains(x) && x != qv0[0] ==> queue_view(entry.1@).contains(x),
                        forall|x: Seq<usize>| #[trigger] queue_view(entry.1@).contains(x) <==> ((qv0.contains(x) && x != qv0[0])
                            || exists|m: int| 0 <= m < i && succs@[m].start_indices@ == x && before.in_range_spec(x, entry.0@)
                                && !before.ruled_out(entry.0@, x)),
                        qv0.len() > 0,
                        pv == qv0[0],
                        self.skipped_starting_positions == before.skipped_starting_positions,
                {
                    if self.in_range(&succs[i], &entry.0)
                        && self.skipped_starting_positions.matchable(&succs[i], &entry.0) {
                        let ghost before_q = queue_view(entry.1@);
                        let s = copy_start_position(&succs[i]);
                        let ghost sv = s.start_indices@;
                        proof {
                            lemma_position_increment(pv, i as int);
                            assert(before.in_range_spec(sv, entry.0@));
                        }
                        insert_start_position(&mut entry.1, s);
                        proof {
                            assert(!before.ruled_out(entry.0@, sv)) by {
                                if before.ruled_out(entry.0@, sv) {
                                    let v = choose|v: int| 0 <= v < entry.0@.len() && #[trigger] before.skipped_starting_positions.has(v, entry.0@[v] as int, sv[v]);
                                }
                            }
                            assert forall|x: Seq<usize>| #[trigger] queue_view(entry.1@).contains(x) <==> ((qv0.contains(x) && x != qv0[0])
                                || exists|m: int| 0 <= m < i + 1 && succs@[m].start_indices@ == x && before.in_range_spec(x, entry.0@)
                                    && !before.ruled_out(entry.0@, x)) by {
                                if x == sv {
                                    assert(succs@[i as int].start_indices@ == x);
                                }
                            }
                            assert forall|j: int| 0 <= j < entry.1@.len() implies (#[trigger] entry.1@[j]).start_indices@.len() == aut.dimensions by {
                                assert(queue_view(entry.1@)[j] == entry.1@[j].start_indices@);
                                assert(queue_view(entry.1@).contains(queue_view(entry.1@)[j]));
                                if before_q.contains(queue_view(entry.1@)[j]) {
                                    let m = choose|m: int| 0 <= m < before_q.len() && before_q[m] == queue_view(entry.1@)[j];
                                }
                            }
                            assert forall|j: int| 0 <= j < queue_view(entry.1@).len() implies position_less(pv, #[trigger] queue_view(entry.1@)[j]) by {
                                assert(queue_view(entry.1@).contains(queue_view(entry.1@)[j]));
                                if before_q.contains(queue_view(entry.1@)[j]) {
                                    let m = choose|m: int| 0 <= m < before_q.len() && before_q[m] == queue_view(entry.1@)[j];
                                }
                            }
                        }
                    } else {
                        proof {
                            let sv = succs@[i as int].start_indices@;
                            assert(!before.in_range_spec(sv, entry.0@) || before.ruled_out(entry.0@, sv)) by {
                                if before.in_range_spec(sv, entry.0@) {
                                    let v = choose|v: int| 0 <= v < entry.0@.len() && #[trigger] self.skipped_starting_positions.has(v, entry.0@[v] as int, sv[v]);
                                    assert(before.skipped_starting_positions.has(v, entry.0@[v] as int, sv[v]));
                                }
                            }
                            assert forall|x: Seq<usize>| #[trigger] queue_view(entry.1@).contains(x) <==> ((qv0.contains(x) && x != qv0[0])
                                || exists|m: int| 0 <= m < i + 1 && succs@[m].start_indices@ == x && before.in_range_spec(x, entry.0@)
                                    && !before.ruled_out(entry.0@, x)) by {
                            }
                        }
                    }
                }
                proof {
                    assert forall|x: Seq<usize>| #[trigger] queue_view(entry.1@).contains(x) <==> ((qv0.contains(x) && x != qv0[0])
                        || (next_position(pv, x) && before.in_range_spec(x, entry.0@) && !before.ruled_out(entry.0@, x))) by {
                        if exists|m: int| 0 <= m < succs@.len() && succs@[m].start_indices@ == x && before.in_range_spec(x, entry.0@)
                            && !before.ruled_out(entry.0@, x) {
                            let m = choose|m: int| 0 <= m < succs@.len() && succs@[m].start_indices@ == x && before.in_range_spec(x, entry.0@)
                                && !before.ruled_out(entry.0@, x);
                            assert(x == pv.update(m, (pv[m] + 1) as usize));
                        }
                        if next_position(pv, x) && before.in_range_spec(x, entry.0@) && !before.ruled_out(entry.0@, x) {
                            let m = choose|m: int| 0 <= m < pv.len() && x == #[trigger] pv.update(m, (pv[m] + 1) as usize);
                            assert(succs@[m].start_indices@ == x);
                        }
                    }
                }
            } else {
                proof {
                    assert forall|x: Seq<usize>| #[trigger] queue_view(entry.1@).contains(x) <==> ((qv0.contains(x) && x != qv0[0])
                        || (next_position(pv, x) && before.in_range_spec(x, entry.0@) && !before.ruled_out(entry.0@, x))) by {
                        if next_position(pv, x) {
                            assert(forall|m: int| 0 <= m < p.start_indices@.len() ==> #[trigger] p.start_indices@[m] < usize::MAX);
                        }
                    }
                }
            }
            let mut views: Vec<ReadableView> = Vec::new();
            for i in 0..entry.0.len()
                invariant
                    views@.len() == i,
                    entry.0@.len() == aut.dimensions,
                    pv.len() == aut.dimensions,
                    p.start_indices@ == pv,
                    forall|j: int| 0 <= j < entry.0@.len() ==> #[trigger] entry.0@[j] < self.sequences@.len(),
                    streams == streams_of(self.sequences@),
                    forall|j: int| 0 <= j < i ==> (#[trigger] views@[j]).start <= streams[entry.0@[j] as int].len(),
                    forall|j: int| 0 <= j < i ==> (#[trigger] views@[j]).start == trial_starts(streams, entry.0@, pv)[j],
            {
                let len = self.sequences[entry.0[i]].len();
                let pos = p.start_indices[i];
                let start = if pos < len {
                    pos
                } else {
                    len
                };
                views.push(ReadableView { start });
            }
            let ghost old_cfgs = self.automata_runner.configs();
            proof {
                assert(starts_of(views@) =~= trial_starts(streams, entry.0@, pv));
            }
            self.automata_runner.insert_from_initial_states(views, copy_positions(&entry.0));
            proof {
                assert forall|j: int| 0 <= j < self.automata_runner.configs().len() implies config_valid(aut, streams, #[trigger] self.automata_runner.configs()[j]) by {
                    let c = self.automata_runner.configs()[j];
                    assert(self.automata_runner.configs().contains(c));
                    if !old_cfgs.contains(c) {
                        let i = choose|i: int| 0 <= i < aut.initial_states@.len() && c == (
                            #[trigger] aut.initial_states@[i],
                            starts_of(views@),
                            starts_of(views@),
                            entry.0@,
                        );
                        assert(aut.initial_states@[i] < aut.num_states());
                        assert forall|m: int| 0 <= m < c.1.len() implies #[trigger] c.3[m] < streams.len() && c.1[m] <= streams[c.3[m] as int].len() by {
                            assert(views@[m].start <= streams[entry.0@[m] as int].len());
                        }
                    } else {
                        let m = choose|m: int| 0 <= m < old_cfgs.len() && old_cfgs[m] == c;
                    }
                }
                assert forall|j: int| 0 <= j < entry.1@.len() implies position_less(pv, #[trigger] entry.1@[j].start_indices@) by {
                    assert(queue_view(entry.1@)[j] == entry.1@[j].start_indices@);
                }
                assert forall|j: int| 0 <= j < entry.1@.len() implies qv0.contains(#[trigger] entry.1@[j].start_indices@)
                    || before.in_range_spec(entry.1@[j].start_indices@, entry.0@) by {
                    assert(queue_view(entry.1@)[j] == entry.1@[j].start_indices@);
                    assert(queue_view(entry.1@).contains(queue_view(entry.1@)[j]));
                }
            }
        }
        std::mem::swap(&mut entry, &mut self.waiting_queues[k]);
        proof {
            assert forall|m: int| 0 <= m < self.waiting_queues@.len() implies #[trigger] self.queue_ok(m) by {
                if m != k {
                    assert(before.queue_ok(m));
                    assert(self.waiting_queues@[m] == before.waiting_queues@[m]);
                }
            }
        }
    }

    /// Drops from the front of the `k`-th queue the start positions that the
    /// skip values rule out, up to the first one they do not.
    fn pass_over_skipped(&mut self, k: usize)
        requires
            old(self).wf(),
            k < old(self).waiting_queues@.len(),
        ensures
            final(self).wf(),
            final(self).automaton() == old(self).automaton(),
            final(self).configs() == old(self).configs(),
            final(self).sequences@ == old(self).sequences@,
            final(self).read_size@ == old(self).read_size@,
            final(self).eof@ == old(self).eof@,
            final(self).reported() == old(self).reported(),
            final(self).waiting_queues@.len() == old(self).waiting_queues@.len(),
            forall|m: int| 0 <= m < old(self).waiting_queues@.len() && m != k ==> #[trigger] final(self).waiting_queues@[m] == old(self).waiting_queues@[m],
            final(self).waiting_queues@[k as int].0@ == old(self).waiting_queues@[k as int].0@,
            final(self).skipped_starting_positions == old(self).skipped_starting_positions,
            final(self).kmp_skip_value == old(self).kmp_skip_value,
            exists|d: int| 0 <= d <= old(self).waiting_queues@[k as int].1@.len()
                && queue_view(final(self).waiting_queues@[k as int].1@) == #[trigger] queue_view(old(self).waiting_queues@[k as int].1@).subrange(
                    d,
                    old(self).waiting_queues@[k as int].1@.len() as int,
                )
                && (forall|j: int| 0 <= j < d ==> #[trigger] old(self).ruled_out(
                    old(self).waiting_queues@[k as int].0@,
                    queue_view(old(self).waiting_queues@[k as int].1@)[j],
                ))
                && (d < old(self).waiting_queues@[k as int].1@.len() ==> !old(self).ruled_out(
                    old(self).waiting_queues@[k as int].0@,
                    queue_view(old(self).waiting_queues@[k as int].1@)[d],
                )),
    {
        let ghost aut = self.automaton();
        let ghost before = *self;
        let mut entry: (Vec<usize>, Vec<StartPosition>) = (Vec::new(), Vec::new());
        std::mem::swap(&mut entry, &mut self.waiting_queues[k]);
        let ghost qv0 = queue_view(entry.1@);
        proof {
            assert(before.queue_ok(k as int));
        }
        let ghost mut d: int = 0;
        let mut done = false;
        while !done && entry.1.len() > 0
            invariant
                k < before.waiting_queues@.len(),
                0 <= d <= qv0.len(),
                queue_view(entry.1@) == qv0.subrange(d, qv0.len() as int),
                entry.0@ == before.waiting_queues@[k as int].0@,
                entry.0@.len() == aut.dimensions,
                forall|j: int| 0 <= j < entry.0@.len() ==> #[trigger] entry.0@[j] < self.sequences@.len(),
                forall|j: int| 0 <= j < entry.1@.len() ==> (#[trigger] entry.1@[j]).start_indices@.len() == aut.dimensions,
                self.sequences@ == before.sequences@,
                self.automata_runner == before.automata_runner,
                self.read_size@ == before.read_size@,
                self.eof@ == before.eof@,
                self.reported == before.reported,
                self.waiting_queues@.len() == before.waiting_queues@.len(),
                forall|m: int| 0 <= m < before.waiting_queues@.len() && m != k ==> #[trigger] self.waiting_queues@[m] == before.waiting_queues@[m],
                self.kmp_skip_value == before.kmp_skip_value,
                self.quick_search_skip_value == before.quick_search_skip_value,
                self.skipped_starting_positions.wf(),
                self.skipped_starting_positions.variable_size == aut.dimensions,
                self.skipped_starting_positions.sequence_size == self.sequences@.len(),
                self.sequences@.len() <= aut.dimensions,
                self.quick_search_skip_value.wf(),
                self.quick_search_skip_value.num_tables() == aut.dimensions,
                self.quick_search_skip_value.last_accepted_word@.len() == aut.dimensions,
                self.skipped_starting_positions == before.skipped_starting_positions,
                forall|j: int| 0 <= j < d ==> #[trigger] before.ruled_out(entry.0@, qv0[j]),
                done ==> d < qv0.len() && !before.ruled_out(entry.0@, qv0[d]),
            decreases entry.1@.len(), if done { 0int } else { 1int },
        {
            let mut ruled_out = !self.skipped_starting_positions.matchable(&entry.1[0], &entry.0);
            if !ruled_out {
                ruled_out = quick_search_skips(
                    &mut self.skipped_starting_positions,
                    &self.quick_search_skip_value,
                    &self.sequences,
                    &entry.0,
                    &entry.1[0],
                );
            }
            proof {
                assert(queue_view(entry.1@).len() == entry.1@.len());
                assert(d < qv0.len());
                assert(queue_view(entry.1@)[0] == entry.1@[0].start_indices@);
                assert(qv0.subrange(d, qv0.len() as int)[0] == qv0[d]);
                assert(entry.1@[0].start_indices@ == qv0[d]);
                assert(ruled_out == before.ruled_out(entry.0@, qv0[d])) by {
                    if before.ruled_out(entry.0@, qv0[d]) {
                        let i = choose|i: int| 0 <= i < entry.0@.len()
                            && #[trigger] before.skipped_starting_positions.has(i, entry.0@[i] as int, qv0[d][i]);
                    }
                }
            }
            if ruled_out {
                let ghost q_before = entry.1@;
                entry.1.remove(0);
                proof {
                    assert(queue_view(q_before).len() == q_before.len());
                    assert forall|j: int| 0 <= j < entry.1@.len() implies queue_view(entry.1@)[j] == qv0[d + 1 + j] by {
                        assert(entry.1@[j] == q_before[j + 1]);
                        assert(queue_view(q_before)[j + 1] == qv0[d + j + 1]);
                    }
                    assert(queue_view(entry.1@) =~= qv0.subrange(d + 1, qv0.len() as int));
                    d = d + 1;
                }
            } else {
                done = true;
            }
        }
        std::mem::swap(&mut entry, &mut self.waiting_queues[k]);
        proof {
            assert(queue_view(self.waiting_queues@[k as int].1@) == queue_view(before.waiting_queues@[k as int].1@).subrange(
                d,
                before.waiting_queues@[k as int].1@.len() as int,
            ));
            assert forall|m: int| 0 <= m < self.waiting_queues@.len() implies #[trigger] self.queue_ok(m) by {
                if m != k {
                    assert(before.queue_ok(m));
                    assert(self.waiting_queues@[m] == before.waiting_queues@[m]);
                } else {
                    let q = queue_view(self.waiting_queues@[m].1@);
                    assert forall|a: int, b: int| 0 <= a < b < q.len() implies position_less(q[a], q[b]) by {
                        assert(q[a] == qv0[a + d] && q[b] == qv0[b + d]);
                    }
                }
            }
        }
    }

    /// Rules out, for each current configuration and each variable, the
    /// positions after the variable's matching begin that the KMP-style skip
    /// value of the configuration's state passes over.
    fn apply_kmp_skips(&mut self)
        requires
            old(self).wf(),
        ensures
            final(self).wf(),
            final(self).automaton() == old(self).automaton(),
            final(self).configs() == old(self).configs(),
            final(self).sequences@ == old(self).sequences@,
            final(self).read_size@ == old(self).read_size@,
            final(self).eof@ == old(self).eof@,
            final(self).reported() == old(self).reported(),
            final(self).waiting_queues@ == old(self).waiting_queues@,
            final(self).kmp_skip_value == old(self).kmp_skip_value,
            forall|v: int, w: int, p: usize| #[trigger] final(self).skipped_starting_positions.has(v, w, p) <==> (
                old(self).skipped_starting_positions.has(v, w, p) || kmp_rules_out(
                    old(self).kmp_skip_value.skip_values@,
                    old(self).configs(),
                    v,
                    w,
                    p as int,
                )),
    {
        let ghost aut = self.automaton();
        let ghost streams = streams_of(self.sequences@);
        let ghost before = *self;
        let ghost skips = self.kmp_skip_value.skip_values@;
        let ghost cs = self.configs();
        let ghost old_skipped = self.skipped_starting_positions;
        let mut skipped = SkippedStartingPositions::new(0, 0);
        std::mem::swap(&mut skipped, &mut self.skipped_starting_positions);
        let n = self.automata_runner.len();
        for ci in 0..n
            invariant
                n == self.configs().len(),
                self.automata_runner.inv(streams),
                aut == self.automaton(),
                streams == streams_of(self.sequences@),
                streams.len() == self.sequences@.len(),
                skipped.wf(),
                skipped.variable_size == aut.dimensions,
                skipped.sequence_size == self.sequences@.len(),
                self.kmp_skip_value.skip_values@.len() == aut.dimensions,
                forall|v: int| 0 <= v < aut.dimensions ==> (#[trigger] self.kmp_skip_value.skip_values@[v])@.len() == aut.num_states(),
                self.configs() == cs,
                self.kmp_skip_value.skip_values@ == skips,
                forall|v: int, w: int, p: usize| #[trigger] skipped.has(v, w, p) <==> (old_skipped.has(v, w, p)
                    || kmp_marked(skips, cs, ci as int, 0, 1, v, w, p as int)),
        {
            let c = self.automata_runner.configuration_at(ci);
            proof {
                assert(config_valid(aut, streams, self.configs()[ci as int]));
            }
            for i in 0..c.ids.len()
                invariant
                    config_valid(aut, streams, c@),
                    c@ == cs[ci as int],
                    0 <= ci < cs.len(),
                    self.kmp_skip_value.skip_values@ == skips,
                    forall|v: int, w: int, p: usize| #[trigger] skipped.has(v, w, p) <==> (old_skipped.has(v, w, p)
                        || kmp_marked(skips, cs, ci as int, i as int, 1, v, w, p as int)),
                    streams.len() == self.sequences@.len(),
                    skipped.wf(),
                    skipped.variable_size == aut.dimensions,
                    skipped.sequence_size == self.sequences@.len(),
                    self.kmp_skip_value.skip_values@.len() == aut.dimensions,
                    forall|v: int| 0 <= v < aut.dimensions ==> (#[trigger] self.kmp_skip_value.skip_values@[v])@.len() == aut.num_states(),
            {
                assert(c.ids@[i as int] < streams.len());
                let skip_value = self.kmp_skip_value.skip_values[i][c.current_state];
                let begin = c.matching_begin[i];
                let mut j: usize = 1;
                proof {
                    assert(c@.3 == c.ids@ && c@.2 == c.matching_begin@ && c@.0 == c.current_state);
                    assert(kmp_skip_of(skips, cs[ci as int], i as int) == skip_value);
                    assert(cs[ci as int].2[i as int] == begin);
                }
                while j < skip_value
                    invariant
                        i < aut.dimensions,
                        i < c.ids@.len(),
                        c.ids@[i as int] < self.sequences@.len(),
                        skipped.wf(),
                        skipped.variable_size == aut.dimensions,
                        skipped.sequence_size == self.sequences@.len(),
                        1 <= j,
                        c@ == cs[ci as int],
                        0 <= ci < cs.len(),
                        cs[ci as int].3[i as int] == c.ids@[i as int],
                        kmp_skip_of(skips, cs[ci as int], i as int) == skip_value,
                        cs[ci as int].2[i as int] == begin,
                        forall|v: int, w: int, p: usize| #[trigger] skipped.has(v, w, p) <==> (old_skipped.has(v, w, p)
                            || kmp_marked(skips, cs, ci as int, i as int, j as int, v, w, p as int)),
                    decreases skip_value - j,
                {
                    let ghost before_insert = skipped;
                    if begin <= usize::MAX - j {
                        skipped.insert(i, c.ids[i], begin + j);
                    }
                    proof {
                        assert forall|v: int, w: int, p: usize| #[trigger] skipped.has(v, w, p) <==> (old_skipped.has(v, w, p)
                            || kmp_marked(skips, cs, ci as int, i as int, j + 1, v, w, p as int)) by {
                            let m0 = kmp_marked(skips, cs, ci as int, i as int, j as int, v, w, p as int);
                            let m1 = kmp_marked(skips, cs, ci as int, i as int, j + 1, v, w, p as int);
                            if m1 && !m0 {
                                let (ci2, j2) = choose|ci2: int, j2: int| #[trigger] kmp_step(skips, cs, ci2, v, j2, w, p as int)
                                    && step_before(ci2, v, j2, ci as int, i as int, j + 1);
                                assert(!step_before(ci2, v, j2, ci as int, i as int, j as int));
                                assert(ci2 == ci && v == i && j2 == j);
                                assert(begin <= usize::MAX - j);
                            }
                            if begin <= usize::MAX - j && v == i && w == c.ids@[i as int] && p == begin + j {
                                assert(kmp_step(skips, cs, ci as int, v, j as int, w, p as int));
                                assert(step_before(ci as int, v, j as int, ci as int, i as int, j + 1));
                            }
                            if m0 {
                                let (ci2, j2) = choose|ci2: int, j2: int| #[trigger] kmp_step(skips, cs, ci2, v, j2, w, p as int)
                                    && step_before(ci2, v, j2, ci as int, i as int, j as int);
                                assert(kmp_step(skips, cs, ci2, v, j2, w, p as int) && step_before(ci2, v, j2, ci as int, i as int, j + 1));
                            }
                        }
                    }
                    j = j + 1;
                }
                proof {
                    assert forall|v: int, w: int, p: usize| #[trigger] skipped.has(v, w, p) <==> (old_skipped.has(v, w, p)
                        || kmp_marked(skips, cs, ci as int, i + 1, 1, v, w, p as int)) by {
                        lemma_marked_equiv(skips, cs, (ci as int, i as int, j as int), (ci as int, i + 1, 1), v, w, p as int);
                    }
                }
            }
            proof {
                assert forall|v: int, w: int, p: usize| #[trigger] skipped.has(v, w, p) <==> (old_skipped.has(v, w, p)
                    || kmp_marked(skips, cs, ci + 1, 0, 1, v, w, p as int)) by {
                    lemma_marked_equiv(skips, cs, (ci as int, c.ids@.len() as int, 1), (ci + 1, 0, 1), v, w, p as int);
                }
            }
        }
        std::mem::swap(&mut skipped, &mut self.skipped_starting_positions);
        proof {
            assert forall|m: int| 0 <= m < self.waiting_queues@.len() implies #[trigger] self.queue_ok(m) by {
                assert(before.queue_ok(m));
            }
        }
    }

    /// Starts a matching for every tuple of streams that has none running:
    /// the start positions that the skip values rule out leave the front of
    /// its queue, and a matching begins from the first one left, which
    /// leaves the queue together with those of its successors that come
    /// after it.
    fn start_new_trials(&mut self)
        requires
            old(self).wf(),
        ensures
            final(self).wf(),
            final(self).automaton() == old(self).automaton(),
            final(self).sequences@ == old(self).sequences@,
            final(self).read_size@ == old(self).read_size@,
            final(self).eof@ == old(self).eof@,
            final(self).reported() == old(self).reported(),
            final(self).skipped_starting_positions == old(self).skipped_starting_positions,
            final(self).kmp_skip_value == old(self).kmp_skip_value,
            final(self).waiting_queues@.len() == old(self).waiting_queues@.len(),
            forall|k: int| 0 <= k < old(self).waiting_queues@.len() ==> (#[trigger] final(self).waiting_queues@[k]).0@
                == old(self).waiting_queues@[k].0@,
            forall|k: int|
                0 <= k < old(self).waiting_queues@.len() && running(old(self).configs(), old(self).waiting_queues@[k].0@)
                    ==> #[trigger] final(self).waiting_queues@[k] == old(self).waiting_queues@[k],
            forall|c: ConfigView| #[trigger] old(self).configs().contains(c) ==> final(self).configs().contains(c),
            forall|c: ConfigView| #[trigger] final(self).configs().contains(c) ==> old(self).configs().contains(c) || exists|k: int, d: int|
                0 <= k < old(self).waiting_queues@.len() && !running(old(self).configs(), old(self).waiting_queues@[k].0@)
                    && 0 <= d < old(self).waiting_queues@[k].1@.len() && #[trigger] trial_config(
                    old(self).automaton(),
                    old(self).streams(),
                    old(self).waiting_queues@[k].0@,
                    old(self).waiting_queues@[k].1@[d].start_indices@,
                    c,
                ),
            tuples_distinct(old(self).waiting_queues@) ==> forall|k: int|
                0 <= k < old(self).waiting_queues@.len() && !running(old(self).configs(), old(self).waiting_queues@[k].0@)
                    ==> exists|d: int| #[trigger] trial_from(
                    old(self).automaton(),
                    old(self).streams(),
                    old(self).waiting_queues@[k].0@,
                    old(self).waiting_queues@[k].1@,
                    d,
                    final(self).waiting_queues@[k].1@,
                    final(self).configs(),
                ) && (d < old(self).waiting_queues@[k].1@.len() ==> old(self).first_open(
                    old(self).waiting_queues@[k].0@,
                    queue_view(old(self).waiting_queues@[k].1@),
                    d,
                )) && (d == old(self).waiting_queues@[k].1@.len() ==> old(self).all_ruled_out(
                    old(self).waiting_queues@[k].0@,
                    queue_view(old(self).waiting_queues@[k].1@),
                )) && old(self).queue_after(
                    old(self).waiting_queues@[k].0@,
                    queue_view(old(self).waiting_queues@[k].1@),
                    d,
                    queue_view(final(self).waiting_queues@[k].1@),
                ),
            forall|c: ConfigView| #[trigger] final(self).configs().contains(c) ==> old(self).configs().contains(c) || exists|k: int, d: int|
                0 <= k < old(self).waiting_queues@.len() && !running(old(self).configs(), old(self).waiting_queues@[k].0@)
                    && old(self).first_open(old(self).waiting_queues@[k].0@, queue_view(old(self).waiting_queues@[k].1@), d)
                    && #[trigger] trial_config(
                    old(self).automaton(),
                    old(self).streams(),
                    old(self).waiting_queues@[k].0@,
                    old(self).waiting_queues@[k].1@[d].start_indices@,
                    c,
                ),
    {
        let ghost before = *self;
        let ghost aut = self.automaton();
        let ghost streams = self.streams();
        let ghost cs0 = self.configs();
        let ghost wq0 = self.waiting_queues@;
        let n = self.waiting_queues.len();
        for k in 0..n
            invariant
                self.wf(),
                n == self.waiting_queues@.len(),
                n == wq0.len(),
                wq0 == before.waiting_queues@,
                cs0 == before.configs(),
                aut == before.automaton(),
                streams == before.streams(),
                self.automaton() == before.automaton(),
                self.sequences@ == before.sequences@,
                self.read_size@ == before.read_size@,
                self.eof@ == before.eof@,
                self.reported() == before.reported(),
                self.skipped_starting_positions == before.skipped_starting_positions,
                self.kmp_skip_value == before.kmp_skip_value,
                forall|m: int| 0 <= m < n ==> (#[trigger] self.waiting_queues@[m]).0@ == wq0[m].0@,
                forall|m: int| k <= m < n ==> #[trigger] self.waiting_queues@[m] == wq0[m],
                forall|m: int| 0 <= m < k && running(cs0, wq0[m].0@) ==> #[trigger] self.waiting_queues@[m] == wq0[m],
                forall|c: ConfigView| #[trigger] cs0.contains(c) ==> self.configs().contains(c),
                forall|c: ConfigView| #[trigger] self.configs().contains(c) ==> cs0.contains(c) || exists|m: int, d: int|
                    0 <= m < k && !running(cs0, wq0[m].0@) && 0 <= d < wq0[m].1@.len() && #[trigger] trial_config(
                        aut, streams, wq0[m].0@, wq0[m].1@[d].start_indices@, c),
                tuples_distinct(wq0) ==> forall|m: int|
                    0 <= m < k && !running(cs0, wq0[m].0@) ==> exists|d: int| #[trigger] trial_from(
                        aut, streams, wq0[m].0@, wq0[m].1@, d, self.waiting_queues@[m].1@, self.configs())
                        && (d < wq0[m].1@.len() ==> before.first_open(wq0[m].0@, queue_view(wq0[m].1@), d))
                        && (d == wq0[m].1@.len() ==> before.all_ruled_out(wq0[m].0@, queue_view(wq0[m].1@)))
                        && before.queue_after(wq0[m].0@, queue_view(wq0[m].1@), d, queue_view(self.waiting_queues@[m].1@)),
                forall|c: ConfigView| #[trigger] self.configs().contains(c) ==> cs0.contains(c) || exists|m: int, d: int|
                    0 <= m < k && !running(cs0, wq0[m].0@) && before.first_open(wq0[m].0@, queue_view(wq0[m].1@), d)
                        && #[trigger] trial_config(aut, streams, wq0[m].0@, wq0[m].1@[d].start_indices@, c),
        {
            let ghost cur = *self;
            let found = self.automata_runner.has_ids(&self.waiting_queues[k].0);
            proof {
                assert(cur.waiting_queues@[k as int] == wq0[k as int]);
                assert(running(cs0, wq0[k as int].0@) ==> found) by {
                    if running(cs0, wq0[k as int].0@) {
                        let j = choose|j: int| 0 <= j < cs0.len() && (#[trigger] cs0[j]).3 == wq0[k as int].0@;
                        assert(cs0.contains(cs0[j]));
                        assert(cur.configs().contains(cs0[j]));
                        let j2 = choose|j2: int| 0 <= j2 < cur.configs().len() && cur.configs()[j2] == cs0[j];
                        assert(cur.configs()[j2].3 == wq0[k as int].0@);
                    }
                }
                if found && tuples_distinct(wq0) && !running(cs0, wq0[k as int].0@) {
                    let j = choose|j: int| 0 <= j < cur.configs().len() && (#[trigger] cur.configs()[j]).3 == wq0[k as int].0@;
                    let x = cur.configs()[j];
                    assert(cur.configs().contains(x));
                    if cs0.contains(x) {
                        let j0 = choose|j0: int| 0 <= j0 < cs0.len() && cs0[j0] == x;
                        assert(cs0[j0].3 == wq0[k as int].0@);
                    } else {
                        let (m, d) = choose|m: int, d: int| 0 <= m < k && !running(cs0, wq0[m].0@) && 0 <= d < wq0[m].1@.len()
                            && #[trigger] trial_config(aut, streams, wq0[m].0@, wq0[m].1@[d].start_indices@, x);
                        assert(x.3 == wq0[m].0@);
                        assert(wq0[m].0@ != wq0[k as int].0@);
                    }
                }
            }
            let ghost mut dk: int = 0;
            if !found {
                self.pass_over_skipped(k);
                let ghost mid = *self;
                proof {
                    dk = choose|d: int| 0 <= d <= wq0[k as int].1@.len()
                        && queue_view(mid.waiting_queues@[k as int].1@) == #[trigger] queue_view(wq0[k as int].1@).subrange(
                            d,
                            wq0[k as int].1@.len() as int,
                        )
                        && (forall|j: int| 0 <= j < d ==> #[trigger] cur.ruled_out(
                            cur.waiting_queues@[k as int].0@,
                            queue_view(cur.waiting_queues@[k as int].1@)[j],
                        ))
                        && (d < cur.waiting_queues@[k as int].1@.len() ==> !cur.ruled_out(
                            cur.waiting_queues@[k as int].0@,
                            queue_view(cur.waiting_queues@[k as int].1@)[d],
                        ));
                    assert(forall|x: Seq<usize>, y: Seq<usize>| cur.ruled_out(x, y) == #[trigger] before.ruled_out(x, y));
                    if dk < wq0[k as int].1@.len() {
                        assert(before.first_open(wq0[k as int].0@, queue_view(wq0[k as int].1@), dk));
                    } else {
                        assert(before.all_ruled_out(wq0[k as int].0@, queue_view(wq0[k as int].1@)));
                    }
                    assert(queue_view(mid.waiting_queues@[k as int].1@).len() == mid.waiting_queues@[k as int].1@.len());
                    if dk < wq0[k as int].1@.len() {
                        assert(queue_view(mid.waiting_queues@[k as int].1@)[0] == queue_view(wq0[k as int].1@)[dk]);
                        assert(queue_view(mid.waiting_queues@[k as int].1@)[0] == mid.waiting_queues@[k as int].1@[0].start_indices@);
                        assert(queue_view(wq0[k as int].1@)[dk] == wq0[k as int].1@[dk].start_indices@);
                        assert(mid.waiting_queues@[k as int].1@[0].start_indices@ == wq0[k as int].1@[dk].start_indices@);
                    } else {
                        assert(queue_view(mid.waiting_queues@[k as int].1@).len() == 0);
                    }
                }
                self.start_trial(k);
                proof {
                    if dk < wq0[k as int].1@.len() {
                        assert(mid.waiting_queues@[k as int].1@.len() > 0);
                        assert forall|j: int| 0 <= j < self.waiting_queues@[k as int].1@.len() implies position_less(
                            wq0[k as int].1@[dk].start_indices@,
                            #[trigger] self.waiting_queues@[k as int].1@[j].start_indices@,
                        ) by {}
                        assert forall|c: ConfigView| #[trigger] trial_config(aut, streams, wq0[k as int].0@, wq0[k as int].1@[dk].start_indices@, c)
                            implies self.configs().contains(c) by {
                            assert(mid.streams() == streams);
                            assert(mid.waiting_queues@[k as int].0@ == wq0[k as int].0@);
                        }
                    } else {
                        assert(mid.waiting_queues@[k as int].1@.len() == 0);
                    }
                    assert(trial_from(aut, streams, wq0[k as int].0@, wq0[k as int].1@, dk, self.waiting_queues@[k as int].1@, self.configs()));
                    if dk < wq0[k as int].1@.len() {
                        let q = queue_view(wq0[k as int].1@);
                        let ids = wq0[k as int].0@;
                        assert(cur.queue_ok(k as int));
                        assert(mid.waiting_queues@[k as int].0@ == ids);
                        assert forall|x: Seq<usize>| #[trigger] queue_view(self.waiting_queues@[k as int].1@).contains(x) <==> (q.subrange(
                            dk + 1,
                            q.len() as int,
                        ).contains(x) || (next_position(q[dk], x) && before.in_range_spec(x, ids) && !before.ruled_out(ids, x))) by {
                            lemma_sorted_tail(q, dk, x);
                            assert(mid.in_range_spec(x, ids) == before.in_range_spec(x, ids));
                            assert(mid.ruled_out(ids, x) == before.ruled_out(ids, x));
                        }
                        assert(before.queue_after(ids, q, dk, queue_view(self.waiting_queues@[k as int].1@)));
                    }
                }
            }
            proof {
                assert forall|m: int| 0 <= m < n implies (#[trigger] self.waiting_queues@[m]).0@ == wq0[m].0@ by {
                    if m != k {
                        assert(self.waiting_queues@[m] == cur.waiting_queues@[m]);
                    }
                }
                assert forall|m: int| k + 1 <= m < n implies #[trigger] self.waiting_queues@[m] == wq0[m] by {
                    assert(self.waiting_queues@[m] == cur.waiting_queues@[m]);
                }
                assert forall|m: int| 0 <= m < k + 1 && running(cs0, wq0[m].0@) implies #[trigger] self.waiting_queues@[m] == wq0[m] by {
                    if m != k {
                        assert(self.waiting_queues@[m] == cur.waiting_queues@[m]);
                    }
                }
                assert forall|c: ConfigView| #[trigger] cs0.contains(c) implies self.configs().contains(c) by {
                    assert(cur.configs().contains(c));
                }
                assert forall|c: ConfigView| #[trigger] self.configs().contains(c) implies cs0.contains(c) || exists|m: int, d: int|
                    0 <= m < k + 1 && !running(cs0, wq0[m].0@) && 0 <= d < wq0[m].1@.len() && #[trigger] trial_config(
                        aut, streams, wq0[m].0@, wq0[m].1@[d].start_indices@, c) by {
                    if !cur.configs().contains(c) {
                        assert(trial_config(aut, streams, wq0[k as int].0@, wq0[k as int].1@[dk].start_indices@, c));
                    }
                }
                assert forall|c: ConfigView| #[trigger] self.configs().contains(c) implies cs0.contains(c) || exists|m: int, d: int|
                    0 <= m < k + 1 && !running(cs0, wq0[m].0@) && before.first_open(wq0[m].0@, queue_view(wq0[m].1@), d)
                        && #[trigger] trial_config(aut, streams, wq0[m].0@, wq0[m].1@[d].start_indices@, c) by {
                    if !cur.configs().contains(c) {
                        assert(trial_config(aut, streams, wq0[k as int].0@, wq0[k as int].1@[dk].start_indices@, c));
                        assert(dk < wq0[k as int].1@.len());
                        assert(before.first_open(wq0[k as int].0@, queue_view(wq0[k as int].1@), dk));
                    } else if !cs0.contains(c) {
                        let (m, d) = choose|m: int, d: int|
                            0 <= m < k && !running(cs0, wq0[m].0@) && before.first_open(wq0[m].0@, queue_view(wq0[m].1@), d)
                                && #[trigger] trial_config(aut, streams, wq0[m].0@, wq0[m].1@[d].start_indices@, c);
                    }
                }
                if tuples_distinct(wq0) {
                    assert forall|m: int| 0 <= m < k + 1 && !running(cs0, wq0[m].0@) implies exists|d: int| #[trigger] trial_from(
                        aut, streams, wq0[m].0@, wq0[m].1@, d, self.waiting_queues@[m].1@, self.configs())
                        && (d < wq0[m].1@.len() ==> before.first_open(wq0[m].0@, queue_view(wq0[m].1@), d))
                        && (d == wq0[m].1@.len() ==> before.all_ruled_out(wq0[m].0@, queue_view(wq0[m].1@)))
                        && before.queue_after(wq0[m].0@, queue_view(wq0[m].1@), d, queue_view(self.waiting_queues@[m].1@)) by {
                        if m < k {
                            let d = choose|d: int| #[trigger] trial_from(
                                aut, streams, wq0[m].0@, wq0[m].1@, d, cur.waiting_queues@[m].1@, cur.configs())
                                && (d < wq0[m].1@.len() ==> before.first_open(wq0[m].0@, queue_view(wq0[m].1@), d))
                                && (d == wq0[m].1@.len() ==> before.all_ruled_out(wq0[m].0@, queue_view(wq0[m].1@)))
                                && before.queue_after(wq0[m].0@, queue_view(wq0[m].1@), d, queue_view(cur.waiting_queues@[m].1@));
                            assert(self.waiting_queues@[m] == cur.waiting_queues@[m]);
                            assert forall|c: ConfigView| #[trigger] trial_config(aut, streams, wq0[m].0@, wq0[m].1@[d].start_indices@, c)
                                && d < wq0[m].1@.len() implies self.configs().contains(c) by {
                                assert(cur.configs().contains(c));
                            }
                            assert(trial_from(aut, streams, wq0[m].0@, wq0[m].1@, d, self.waiting_queues@[m].1@, self.configs()));
                        } else {
                            assert(!found);
                            assert(trial_from(aut, streams, wq0[k as int].0@, wq0[k as int].1@, dk, self.waiting_queues@[k as int].1@, self.configs()));
                            assert(dk < wq0[k as int].1@.len() ==> before.first_open(wq0[k as int].0@, queue_view(wq0[k as int].1@), dk));
                            assert(dk == wq0[k as int].1@.len() ==> before.all_ruled_out(wq0[k as int].0@, queue_view(wq0[k as int].1@)));
                            assert(before.queue_after(wq0[k as int].0@, queue_view(wq0[k as int].1@), dk, queue_view(self.waiting_queues@[k as int].1@)));
                        }
                    }
                }
            }
        }
    }

    /// Appends `action` to the stream `track`, runs every configuration as
    /// far as the streams go, reports the configurations at a final state,
    /// rules out the start positions that the skip values of the states
    /// reached pass over, drops the configurations that no longer wait for
    /// input, and starts a new matching for each tuple of streams left
    /// without one, from its smallest waiting start position not ruled out.
    pub fn feed(&mut self, action: &str, track: usize)
        requires
            old(self).wf(),
            track < old(self).num_tracks(),
        ensures
            final(self).wf(),
            final(self).automaton() == old(self).automaton(),
            final(self).num_tracks() == old(self).num_tracks(),
            forall|t: int| #[trigger] final(self).is_eof(t) == old(self).is_eof(t),
            final(self).streams() == old(self).streams().update(track as int, old(self).streams()[track as int].push(action@)),
            old(self).reported().len() <= final(self).reported().len(),
            final(self).reported().subrange(0, old(self).reported().len() as int) == old(self).reported(),
            forall|e: MatchingReport| #[trigger] final(self).reported().subrange(
                old(self).reported().len() as int,
                final(self).reported().len() as int,
            ).contains(e) ==> exists|c: ConfigView|
                derivable(final(self).automaton(), final(self).streams(), old(self).configs(), c)
                    && final(self).automaton().final_at(c.0 as int) && e == #[trigger] report_of(c),
            forall|c: ConfigView|
                derivable(final(self).automaton(), final(self).streams(), old(self).configs(), c)
                    && final(self).automaton().final_at(c.0 as int) ==> #[trigger] final(self).reported().subrange(
                    old(self).reported().len() as int,
                    final(self).reported().len() as int,
                ).contains(report_of(c)),
            forall|v: int, q: int| #[trigger] final(self).kmp_skip(v, q) == old(self).kmp_skip(v, q),
            forall|ids: Seq<usize>, p: Seq<usize>| #[trigger] final(self).ruled_out(ids, p) <==> (old(self).ruled_out(ids, p)
                || exists|i: int, c: ConfigView|
                0 <= i < ids.len() && i < old(self).automaton().dimensions
                    && #[trigger] derivable(final(self).automaton(), final(self).streams(), old(self).configs(), c)
                    && c.3[i] == ids[i] && c.2[i] < p[i] < c.2[i] + #[trigger] old(self).kmp_skip(i, c.0 as int)),
            exists|cs: Seq<ConfigView>|
                distinct(cs) && (forall|c: ConfigView| #[trigger] cs.contains(c) <==> derivable(
                    final(self).automaton(),
                    final(self).streams(),
                    old(self).configs(),
                    c,
                )) && #[trigger] final(self).reported() == old(self).reported() + reports_of(keep_final(final(self).automaton(), cs)),
            final(self).num_tuples() == old(self).num_tuples(),
            forall|k: int| 0 <= k < old(self).num_tuples() ==> #[trigger] final(self).tuple(k) == old(self).tuple(k),
            forall|c: ConfigView| #[trigger] final(self).configs().contains(c) <==> ((derivable(
                final(self).automaton(),
                final(self).streams(),
                old(self).configs(),
                c,
            ) && final(self).waits(c)) || exists|k: int, d: int|
                0 <= k < old(self).num_tuples() && !final(self).kept_runs(*old(self), k)
                    && final(self).first_open(old(self).tuple(k), old(self).queue_of(k), d)
                    && #[trigger] trial_config(final(self).automaton(), final(self).streams(), old(self).tuple(k), old(self).queue_of(k)[d], c)),
            forall|k: int|
                0 <= k < old(self).num_tuples() && final(self).kept_runs(*old(self), k)
                    ==> #[trigger] final(self).queue_of(k) == old(self).queue_of(k),
            forall|k: int, d: int, j: int|
                0 <= k < old(self).num_tuples() && !final(self).kept_runs(*old(self), k)
                    && final(self).first_open(old(self).tuple(k), old(self).queue_of(k), d)
                    && 0 <= j < final(self).queue_of(k).len()
                    ==> #[trigger] position_less(old(self).queue_of(k)[d], final(self).queue_of(k)[j]),
            forall|k: int, d: int|
                0 <= k < old(self).num_tuples() && !final(self).kept_runs(*old(self), k)
                    && final(self).first_open(old(self).tuple(k), old(self).queue_of(k), d)
                    ==> #[trigger] final(self).queue_after(old(self).tuple(k), old(self).queue_of(k), d, final(self).queue_of(k)),
            forall|k: int|
                0 <= k < old(self).num_tuples() && !final(self).kept_runs(*old(self), k)
                    && final(self).all_ruled_out(old(self).tuple(k), old(self).queue_of(k))
                    ==> #[trigger] final(self).queue_of(k).len() == 0,
    {
        let ghost aut = self.automaton();
        let ghost old_streams = streams_of(self.sequences@);
        let ghost old_configs = self.configs();
        let ghost before = *self;
        let mut s = AppendOnlySequence::new();
        std::mem::swap(&mut s, &mut self.sequences[track]);
        let ghost old_items = s.items_deep();
        s.append(action.to_owned());
        proof {
            assert(s.items_deep() =~= old_items.push(action@));
            s.lemma_len_bound();
        }
        std::mem::swap(&mut s, &mut self.sequences[track]);
        let ghost streams = streams_of(self.sequences@);
        proof {
            assert(streams =~= old_streams.update(track as int, old_streams[track as int].push(action@)));
            assert(self.sequences@[track as int].items().len() == self.sequences@[track as int].items_deep().len());
            assert(before.sequences@[track as int].items().len() == old_streams[track as int].len());
        }
        let rs = self.read_size[track];
        self.read_size.set(track, rs + 1);
        proof {
            assert forall|j: int| 0 <= j < self.automata_runner.configs().len() implies config_valid(aut, streams, #[trigger] self.automata_runner.configs()[j]) by {
                assert(config_valid(aut, old_streams, self.automata_runner.configs()[j]));
                assert forall|i: int| 0 <= i < old_streams.len() implies #[trigger] old_streams[i].len() <= streams[i].len() by {}
                lemma_valid_extend(aut, old_streams, streams, self.automata_runner.configs()[j]);
            }
            assert forall|t: int| 0 <= t < self.sequences@.len() implies #[trigger] self.read_size@[t] <= self.sequences@[t].items().len() by {
                if t != track {
                    assert(self.sequences@[t] == before.sequences@[t]);
                }
                assert(self.sequences@[t].items().len() == streams[t].len());
                assert(before.sequences@[t].items().len() == old_streams[t].len());
            }
            assert forall|t: int| 0 <= t < self.sequences@.len() && #[trigger] self.eof@[t] implies self.sequences@[t].is_closed_spec() by {
                if t != track {
                    assert(self.sequences@[t] == before.sequences@[t]);
                }
            }
            assert forall|m: int| 0 <= m < self.waiting_queues@.len() implies #[trigger] self.queue_ok(m) by {
                assert(before.queue_ok(m));
            }
        }
        self.automata_runner.consume(&self.sequences);
        let ghost c1 = self.configs();
        proof {
            assert forall|i: int, j: int| 0 <= i < c1.len() && 0 <= j < c1.len() && i != j implies c1[i] != c1[j] by {
                if i < j {
                    assert(self.automata_runner.configs()[i] != self.automata_runner.configs()[j]);
                } else {
                    assert(self.automata_runner.configs()[j] != self.automata_runner.configs()[i]);
                }
            }
            assert forall|m: int| 0 <= m < self.waiting_queues@.len() implies #[trigger] self.queue_ok(m) by {
                assert(before.queue_ok(m));
            }
        }
        self.report_finals();
        let ghost after_report = self.reported();
        proof {
            assert forall|j: int| 0 <= j < self.automata_runner.configs().len() implies
                (#[trigger] self.automata_runner.configs()[j]).1.len() == self.automata_runner.configs()[j].3.len()
                && forall|i: int| 0 <= i < self.automata_runner.configs()[j].3.len() ==> #[trigger] self.automata_runner.configs()[j].3[i] < self.sequences@.len() by {
                assert(config_valid(aut, streams, self.automata_runner.configs()[j]));
            }
        }
        let ghost before_kmp = *self;
        self.apply_kmp_skips();
        let ghost before_remove = *self;
        proof {
            assert forall|c: ConfigView| #[trigger] c1.contains(c) <==> derivable(aut, streams, old_configs, c) by {
                if derivable(aut, streams, old_configs, c) {
                    let (c0, n0) = choose|c0: ConfigView, n0: nat| old_configs.contains(c0) && #[trigger] derives(aut, streams, c0, c, n0);
                    lemma_closed_contains_derived(aut, streams, c1, c0, c, n0);
                }
            }
        }
        self.automata_runner.remove_non_waiting_configurations(&self.sequences);
        let ghost c2 = self.configs();
        proof {
            assert forall|c: ConfigView| #[trigger] c2.contains(c) <==> derivable(aut, streams, old_configs, c) && waiting_view(self.sequences@, c) by {
                lemma_keep_waiting_contains(self.sequences@, c1, c);
            }
        }
        proof {
            crate::hyper_pattern_matching::lemma_keep_waiting_sub(self.sequences@, c1);
            assert forall|j: int| 0 <= j < self.automata_runner.configs().len() implies config_valid(aut, streams, #[trigger] self.automata_runner.configs()[j]) by {
                let x = self.automata_runner.configs()[j];
                assert(self.automata_runner.configs().contains(x));
                let m = choose|m: int| 0 <= m < c1.len() && c1[m] == x;
            }
            assert forall|m: int| 0 <= m < self.waiting_queues@.len() implies #[trigger] self.queue_ok(m) by {
                assert(before_remove.queue_ok(m));
            }
        }
        let ghost pre_trials = *self;
        self.start_new_trials();
        proof {
            assert(self.skipped_starting_positions == before_remove.skipped_starting_positions);
            assert(before_kmp.configs() == c1);
            assert forall|ids: Seq<usize>, p: Seq<usize>| #[trigger] self.ruled_out(ids, p) <==> (before.ruled_out(ids, p)
                || exists|i: int, c: ConfigView|
                0 <= i < ids.len() && i < aut.dimensions
                    && #[trigger] derivable(aut, streams, before.configs(), c)
                    && c.3[i] == ids[i] && c.2[i] < p[i] < c.2[i] + #[trigger] before.kmp_skip(i, c.0 as int)) by {
                let skips = before_kmp.kmp_skip_value.skip_values@;
                assert(before_kmp.skipped_starting_positions == before.skipped_starting_positions);
                if self.ruled_out(ids, p) && !before.ruled_out(ids, p) {
                    let i = choose|i: int| 0 <= i < ids.len() && #[trigger] self.skipped_starting_positions.has(i, ids[i] as int, p[i]);
                    assert(!before.skipped_starting_positions.has(i, ids[i] as int, p[i]));
                    assert(kmp_rules_out(skips, c1, i, ids[i] as int, p[i] as int));
                    let (ci, k) = choose|ci: int, k: int| #[trigger] kmp_step(skips, c1, ci, i, k, ids[i] as int, p[i] as int)
                        && step_before(ci, i, k, c1.len() as int, 0, 1);
                    let c = c1[ci];
                    assert(c1.contains(c));
                    assert(derivable(aut, streams, before.configs(), c));
                    assert(config_valid(aut, streams, c));
                    assert(c.3.len() == aut.dimensions);
                    assert(kmp_skip_of(skips, c, i) == before.kmp_skip(i, c.0 as int));
                }
                if before.ruled_out(ids, p) {
                    let i = choose|i: int| 0 <= i < ids.len() && #[trigger] before.skipped_starting_positions.has(i, ids[i] as int, p[i]);
                    assert(self.skipped_starting_positions.has(i, ids[i] as int, p[i]));
                }
                if exists|i: int, c: ConfigView|
                    0 <= i < ids.len() && i < aut.dimensions
                        && #[trigger] derivable(aut, streams, before.configs(), c)
                        && c.3[i] == ids[i] && c.2[i] < p[i] < c.2[i] + #[trigger] before.kmp_skip(i, c.0 as int) {
                    let (i, c) = choose|i: int, c: ConfigView|
                        0 <= i < ids.len() && i < aut.dimensions
                            && #[trigger] derivable(aut, streams, before.configs(), c)
                            && c.3[i] == ids[i] && c.2[i] < p[i] < c.2[i] + #[trigger] before.kmp_skip(i, c.0 as int);
                    let k = p[i] - c.2[i];
                    assert(c1.contains(c));
                    let ci = choose|ci: int| 0 <= ci < c1.len() && c1[ci] == c;
                    assert(config_valid(aut, streams, c));
                    assert(kmp_step(skips, c1, ci, i, k, ids[i] as int, p[i] as int));
                    assert(step_before(ci, i, k, c1.len() as int, 0, 1));
                    assert(kmp_rules_out(skips, c1, i, ids[i] as int, p[i] as int));
                    assert(self.skipped_starting_positions.has(i, ids[i] as int, p[i]));
                    assert(self.ruled_out(ids, p));
                }
            }
            assert(pre_trials.waiting_queues@ == before.waiting_queues@);
            assert(forall|x: Seq<usize>, y: Seq<usize>| #![trigger pre_trials.ruled_out(x, y)] #![trigger self.ruled_out(x, y)] pre_trials.ruled_out(x, y) == self.ruled_out(x, y));
            assert forall|k: int| 0 <= k < before.num_tuples() implies running(c2, before.waiting_queues@[k].0@) == self.kept_runs(before, k) by {
                if running(c2, before.waiting_queues@[k].0@) {
                    let j = choose|j: int| 0 <= j < c2.len() && (#[trigger] c2[j]).3 == before.waiting_queues@[k].0@;
                    assert(c2.contains(c2[j]));
                    assert(self.waits(c2[j]));
                }
                if self.kept_runs(before, k) {
                    let c = choose|c: ConfigView| derivable(self.automaton(), self.streams(), before.configs(), c) && #[trigger] self.waits(c) && c.3
                        == before.tuple(k);
                    assert(c2.contains(c));
                    let j = choose|j: int| 0 <= j < c2.len() && c2[j] == c;
                    assert(c2[j].3 == before.waiting_queues@[k].0@);
                }
            }
            assert forall|k: int, d: int| 0 <= k < before.num_tuples() && 0 <= d < before.waiting_queues@[k].1@.len() implies
                #[trigger] before.queue_of(k)[d] == before.waiting_queues@[k].1@[d].start_indices@ by {}
            assert forall|k: int| 0 <= k < before.num_tuples() implies #[trigger] before.queue_of(k).len() == before.waiting_queues@[k].1@.len() by {}
            assert(tuples_distinct(pre_trials.waiting_queues@));
            assert(pre_trials.automaton() == aut && pre_trials.streams() == streams && pre_trials.configs() == c2);
            assert forall|c: ConfigView| #[trigger] self.configs().contains(c) <==> ((derivable(aut, streams, before.configs(), c)
                && self.waits(c)) || exists|k: int, d: int|
                0 <= k < before.num_tuples() && !self.kept_runs(before, k) && self.first_open(before.tuple(k), before.queue_of(k), d)
                    && #[trigger] trial_config(aut, streams, before.tuple(k), before.queue_of(k)[d], c)) by {
                assert(self.waits(c) == waiting_view(pre_trials.sequences@, c));
                if derivable(aut, streams, before.configs(), c) && self.waits(c) {
                    assert(c2.contains(c));
                }
                if self.configs().contains(c) && c2.contains(c) {
                    assert(derivable(aut, streams, before.configs(), c) && self.waits(c));
                }
                if self.configs().contains(c) && !c2.contains(c) {
                    let (k, d) = choose|k: int, d: int|
                        0 <= k < pre_trials.waiting_queues@.len() && !running(c2, pre_trials.waiting_queues@[k].0@)
                            && pre_trials.first_open(pre_trials.waiting_queues@[k].0@, queue_view(pre_trials.waiting_queues@[k].1@), d)
                            && #[trigger] trial_config(
                            aut, streams, pre_trials.waiting_queues@[k].0@, pre_trials.waiting_queues@[k].1@[d].start_indices@, c);
                    assert(running(c2, before.waiting_queues@[k].0@) == self.kept_runs(before, k));
                    assert(!self.kept_runs(before, k));
                    assert(before.queue_of(k)[d] == before.waiting_queues@[k].1@[d].start_indices@);
                    assert(self.first_open(before.tuple(k), before.queue_of(k), d));
                    assert(trial_config(aut, streams, before.tuple(k), before.queue_of(k)[d], c));
                }
                if exists|k: int, d: int|
                    0 <= k < before.num_tuples() && !self.kept_runs(before, k) && self.first_open(before.tuple(k), before.queue_of(k), d)
                        && #[trigger] trial_config(aut, streams, before.tuple(k), before.queue_of(k)[d], c) {
                    let (k, d) = choose|k: int, d: int|
                        0 <= k < before.num_tuples() && !self.kept_runs(before, k) && self.first_open(before.tuple(k), before.queue_of(k), d)
                            && #[trigger] trial_config(aut, streams, before.tuple(k), before.queue_of(k)[d], c);
                    assert(running(c2, before.waiting_queues@[k].0@) == self.kept_runs(before, k));
                    assert(!running(c2, pre_trials.waiting_queues@[k].0@));
                    let d2 = choose|d2: int| #[trigger] trial_from(
                        aut, streams, pre_trials.waiting_queues@[k].0@, pre_trials.waiting_queues@[k].1@, d2,
                        self.waiting_queues@[k].1@, self.configs())
                        && (d2 < pre_trials.waiting_queues@[k].1@.len() ==> pre_trials.first_open(
                            pre_trials.waiting_queues@[k].0@, queue_view(pre_trials.waiting_queues@[k].1@), d2))
                        && (d2 == pre_trials.waiting_queues@[k].1@.len() ==> pre_trials.all_ruled_out(
                            pre_trials.waiting_queues@[k].0@, queue_view(pre_trials.waiting_queues@[k].1@)));
                    assert(pre_trials.first_open(before.tuple(k), before.queue_of(k), d));
                    assert(d2 == d);
                    assert(trial_config(aut, streams, pre_trials.waiting_queues@[k].0@, pre_trials.waiting_queues@[k].1@[d].start_indices@, c));
                    assert(self.configs().contains(c));
                }
            }
            assert forall|k: int| 0 <= k < before.num_tuples() && self.kept_runs(before, k)
                implies #[trigger] self.queue_of(k) == before.queue_of(k) by {
                assert(self.waiting_queues@[k] == before.waiting_queues@[k]);
            }
            assert forall|k: int, d: int, j: int| 0 <= k < before.num_tuples() && !self.kept_runs(before, k)
                && self.first_open(before.tuple(k), before.queue_of(k), d) && 0 <= j < self.queue_of(k).len()
                implies #[trigger] position_less(before.queue_of(k)[d], self.queue_of(k)[j]) by {
                assert(!running(c2, pre_trials.waiting_queues@[k].0@));
                let d2 = choose|d2: int| #[trigger] trial_from(
                    aut, streams, pre_trials.waiting_queues@[k].0@, pre_trials.waiting_queues@[k].1@, d2,
                    self.waiting_queues@[k].1@, self.configs())
                    && (d2 < pre_trials.waiting_queues@[k].1@.len() ==> pre_trials.first_open(
                        pre_trials.waiting_queues@[k].0@, queue_view(pre_trials.waiting_queues@[k].1@), d2))
                    && (d2 == pre_trials.waiting_queues@[k].1@.len() ==> pre_trials.all_ruled_out(
                        pre_trials.waiting_queues@[k].0@, queue_view(pre_trials.waiting_queues@[k].1@)));
                assert(pre_trials.first_open(before.tuple(k), before.queue_of(k), d));
                assert(d2 == d);
                assert(self.queue_of(k)[j] == self.waiting_queues@[k].1@[j].start_indices@);
            }
            assert forall|k: int, d: int| 0 <= k < before.num_tuples() && !self.kept_runs(before, k)
                && self.first_open(before.tuple(k), before.queue_of(k), d)
                implies #[trigger] self.queue_after(before.tuple(k), before.queue_of(k), d, self.queue_of(k)) by {
                assert(!running(c2, pre_trials.waiting_queues@[k].0@));
                let d2 = choose|d2: int| #[trigger] trial_from(
                    aut, streams, pre_trials.waiting_queues@[k].0@, pre_trials.waiting_queues@[k].1@, d2,
                    self.waiting_queues@[k].1@, self.configs())
                    && (d2 < pre_trials.waiting_queues@[k].1@.len() ==> pre_trials.first_open(
                        pre_trials.waiting_queues@[k].0@, queue_view(pre_trials.waiting_queues@[k].1@), d2))
                    && (d2 == pre_trials.waiting_queues@[k].1@.len() ==> pre_trials.all_ruled_out(
                        pre_trials.waiting_queues@[k].0@, queue_view(pre_trials.waiting_queues@[k].1@)))
                    && pre_trials.queue_after(pre_trials.waiting_queues@[k].0@, queue_view(pre_trials.waiting_queues@[k].1@), d2,
                        queue_view(self.waiting_queues@[k].1@));
                assert(pre_trials.first_open(before.tuple(k), before.queue_of(k), d));
                assert(d2 == d);
                assert forall|x: Seq<usize>| #[trigger] self.queue_of(k).contains(x) <==> (before.queue_of(k).subrange(d + 1, before.queue_of(k).len() as int).contains(x)
                    || (next_position(before.queue_of(k)[d], x) && self.in_range_spec(x, before.tuple(k)) && !self.ruled_out(before.tuple(k), x))) by {
                    assert(pre_trials.in_range_spec(x, before.tuple(k)) == self.in_range_spec(x, before.tuple(k)));
                    assert(pre_trials.ruled_out(before.tuple(k), x) == self.ruled_out(before.tuple(k), x));
                }
            }
            assert forall|k: int| 0 <= k < before.num_tuples() && !self.kept_runs(before, k)
                && self.all_ruled_out(before.tuple(k), before.queue_of(k))
                implies #[trigger] self.queue_of(k).len() == 0 by {
                assert(!running(c2, pre_trials.waiting_queues@[k].0@));
                let d2 = choose|d2: int| #[trigger] trial_from(
                    aut, streams, pre_trials.waiting_queues@[k].0@, pre_trials.waiting_queues@[k].1@, d2,
                    self.waiting_queues@[k].1@, self.configs())
                    && (d2 < pre_trials.waiting_queues@[k].1@.len() ==> pre_trials.first_open(
                        pre_trials.waiting_queues@[k].0@, queue_view(pre_trials.waiting_queues@[k].1@), d2))
                    && (d2 == pre_trials.waiting_queues@[k].1@.len() ==> pre_trials.all_ruled_out(
                        pre_trials.waiting_queues@[k].0@, queue_view(pre_trials.waiting_queues@[k].1@)));
                if d2 < pre_trials.waiting_queues@[k].1@.len() {
                    assert(pre_trials.ruled_out(before.tuple(k), before.queue_of(k)[d2]));
                }
                assert(self.queue_of(k).len() == self.waiting_queues@[k].1@.len());
            }
            let new_part = self.reported().subrange(before.reported().len() as int, self.reported().len() as int);
            assert(self.eof@ == before.eof@);
            assert forall|t: int| #[trigger] self.is_eof(t) == before.is_eof(t) by {}
            assert(new_part =~= reports_of(keep_final(aut, c1)));
            assert(distinct(c1));
            assert(self.reported() =~= before.reported() + reports_of(keep_final(aut, c1)));
            assert(self.reported().subrange(0, before.reported().len() as int) =~= before.reported());
            assert forall|e: MatchingReport| #[trigger] new_part.contains(e) implies exists|c: ConfigView|
                derivable(aut, streams, old_configs, c) && aut.final_at(c.0 as int) && e == #[trigger] report_of(c) by {
                let m = choose|m: int| 0 <= m < new_part.len() && new_part[m] == e;
                let x = keep_final(aut, c1)[m];
                assert(keep_final(aut, c1).contains(x));
                lemma_keep_final_contains(aut, c1, x);
                assert(e == report_of(x));
            }
            assert forall|c: ConfigView| derivable(aut, streams, old_configs, c) && aut.final_at(c.0 as int)
                implies #[trigger] new_part.contains(report_of(c)) by {
                let (c0, n0) = choose|c0: ConfigView, n0: nat| old_configs.contains(c0) && #[trigger] crate::hyper_pattern_matching::derives(aut, streams, c0, c, n0);
                assert(c1.contains(c0));
                lemma_closed_contains_derived(aut, streams, c1, c0, c, n0);
                lemma_keep_final_contains(aut, c1, c);
                let m = choose|m: int| 0 <= m < keep_final(aut, c1).len() && keep_final(aut, c1)[m] == c;
                assert(new_part[m] == report_of(c));
            }
        }
    }

    /// Marks the stream `track` as ended.
    pub fn set_eof(&mut self, track: usize)
        requires
            old(self).wf(),
            track < old(self).num_tracks(),
        ensures
            final(self).wf(),
            final(self).automaton() == old(self).automaton(),
            final(self).num_tracks() == old(self).num_tracks(),
            final(self).streams() == old(self).streams(),
            final(self).reported() == old(self).reported(),
            final(self).is_eof(track as int),
            forall|t: int| t != track ==> #[trigger] final(self).is_eof(t) == old(self).is_eof(t),
    {
        let ghost before = *self;
        let mut s = AppendOnlySequence::new();
        std::mem::swap(&mut s, &mut self.sequences[track]);
        s.close();
        std::mem::swap(&mut s, &mut self.sequences[track]);
        self.eof.set(track, true);
        proof {
            assert(streams_of(self.sequences@) =~= streams_of(before.sequences@));
            assert forall|t: int| 0 <= t < self.sequences@.len() implies #[trigger] self.read_size@[t] <= self.sequences@[t].items().len() by {
                if t != track {
                    assert(self.sequences@[t] == before.sequences@[t]);
                }
            }
            assert forall|t: int| 0 <= t < self.sequences@.len() && #[trigger] self.eof@[t] implies self.sequences@[t].is_closed_spec() by {
                if t != track {
                    assert(self.sequences@[t] == before.sequences@[t]);
                }
            }
            assert forall|m: int| 0 <= m < self.waiting_queues@.len() implies #[trigger] self.queue_ok(m) by {
                assert(before.queue_ok(m));
            }
        }
    }
}


/// How far the first start position of a queue is from the end of the
/// positions with `d` indices below `b`, in the order of start positions;
/// 0 for an empty queue.
pub open spec fn position_queue_measure(q: Seq<StartPosition>, b: nat, d: nat) -> nat {
    if q.len() == 0 {
        0
    } else {
        ((d * b + 1) * power(b, d) - position_rank(q[0].start_indices@, b)) as nat
    }
}

/// The sum of the measures of the queues.
pub open spec fn position_total_measure(qs: Seq<(Vec<usize>, Vec<StartPosition>)>, b: nat, d: nat) -> nat
    decreases qs.len(),
{
    if qs.len() == 0 {
        0
    } else {
        position_total_measure(qs.drop_last(), b, d) + position_queue_measure(qs.last().1@, b, d)
    }
}

proof fn lemma_position_total_update(
    qs: Seq<(Vec<usize>, Vec<StartPosition>)>,
    k: int,
    x: (Vec<usize>, Vec<StartPosition>),
    b: nat,
    d: nat,
)
    requires
        0 <= k < qs.len(),
    ensures
        position_total_measure(qs.update(k, x), b, d) + position_queue_measure(qs[k].1@, b, d)
            == position_total_measure(qs, b, d) + position_queue_measure(x.1@, b, d),
    decreases qs.len(),
{
    let u = qs.update(k, x);
    if k == qs.len() - 1 {
        assert(u.drop_last() =~= qs.drop_last());
    } else {
        assert(u.drop_last() =~= qs.drop_last().update(k, x));
        lemma_position_total_update(qs.drop_last(), k, x, b, d);
    }
}

impl<'a, Notifier: ResultNotifier> FJSHyperPatternMatching<'a, Notifier> {
    /// Every waiting queue is empty.
    pub closed spec fn queues_empty(&self) -> bool {
        forall|k: int| 0 <= k < self.waiting_queues@.len() ==> (#[trigger] self.waiting_queues@[k]).1@.len() == 0
    }

    /// Whether some start position is waiting.
    fn any_waiting(&self) -> (r: bool)
        ensures
            r == exists|k: int| 0 <= k < self.waiting_queues@.len() && (#[trigger] self.waiting_queues@[k]).1@.len() > 0,
    {
        for k in 0..self.waiting_queues.len()
            invariant
                forall|m: int| 0 <= m < k ==> (#[trigger] self.waiting_queues@[m]).1@.len() == 0,
        {
            if self.waiting_queues[k].1.len() > 0 {
                return true;
            }
        }
        false
    }

    /// Once every stream has ended: runs the current configurations to the
    /// end and reports their matchings, then, round after round, drops every
    /// configuration, starts one trial from the smallest waiting start
    /// position of each tuple of streams, and reports the matchings found,
    /// until no start position is left.
    pub fn consume_remaining(&mut self)
        requires
            old(self).wf(),
            forall|t: int| 0 <= t < old(self).num_tracks() ==> #[trigger] old(self).is_eof(t),
        ensures
            final(self).wf(),
            final(self).automaton() == old(self).automaton(),
            final(self).streams() == old(self).streams(),
            final(self).num_tracks() == old(self).num_tracks(),
            forall|t: int| #[trigger] final(self).is_eof(t) == old(self).is_eof(t),
            final(self).queues_empty(),
            old(self).reported().len() <= final(self).reported().len(),
            final(self).reported().subrange(0, old(self).reported().len() as int) == old(self).reported(),
            forall|j: int| old(self).reported().len() <= j < final(self).reported().len() ==> sound_report(
                final(self).automaton(),
                final(self).streams(),
                #[trigger] final(self).reported()[j],
            ),
            forall|c: ConfigView|
                #[trigger] derivable(old(self).automaton(), old(self).streams(), old(self).configs(), c)
                    && old(self).automaton().final_at(c.0 as int) ==> final(self).reported().contains(report_of(c)),
            forall|k: int, p: Seq<usize>, c: ConfigView|
                0 <= k < old(self).num_tuples() && old(self).queue_of(k).contains(p)
                    && #[trigger] trial_derivable(old(self).automaton(), old(self).streams(), old(self).tuple(k), p, c)
                    && old(self).automaton().final_at(c.0 as int) ==> final(self).reported().contains(report_of(c)),
            forall|k: int, path: Seq<Seq<usize>>, c: ConfigView|
                #[trigger] old(self).path_owed(k, path, c) ==> final(self).reported().contains(report_of(c)),
    {
        let ghost aut = self.automaton();
        let ghost streams = streams_of(self.sequences@);
        let ghost start = *self;
        let ghost d: nat = aut.dimensions as nat;
        self.automata_runner.consume(&self.sequences);
        proof {
            assert forall|m: int| 0 <= m < self.waiting_queues@.len() implies #[trigger] self.queue_ok(m) by {
                assert(start.queue_ok(m));
            }
        }
        let ghost configs1 = self.configs();
        self.report_finals();
        proof {
            assert forall|j: int| start.reported().len() <= j < self.reported().len() implies sound_report(aut, streams, #[trigger] self.reported()[j]) by {
                let x = keep_final(aut, configs1)[j - start.reported().len()];
                assert(self.reported()[j] == report_of(x));
                assert(keep_final(aut, configs1).contains(x));
                lemma_keep_final_contains(aut, configs1, x);
                let m = choose|m: int| 0 <= m < configs1.len() && configs1[m] == x;
                assert(config_valid(aut, streams, configs1[m]));
                assert(sound_report(aut, streams, report_of(x)));
            }
            assert(self.reported().subrange(0, start.reported().len() as int) =~= start.reported());
            assert forall|c: ConfigView| #[trigger] derivable(aut, streams, start.configs(), c) && aut.final_at(c.0 as int)
                implies self.reported().contains(report_of(c)) by {
                let (c0, m) = choose|c0: ConfigView, m: nat| start.configs().contains(c0) && #[trigger] derives(aut, streams, c0, c, m);
                lemma_found_reported(aut, streams, configs1, start.reported(), self.reported(), c0, c, m);
            }
        }
        let ghost b: nat = max_nat(queues_max(self.waiting_queues@), seq_max(self.read_size@)) + 1;
        proof {
            assert forall|k: int, j: int, i: int|
                0 <= k < self.waiting_queues@.len() && 0 <= j < self.waiting_queues@[k].1@.len() && 0 <= i < self.waiting_queues@[k].1@[j].start_indices@.len()
                implies #[trigger] self.waiting_queues@[k].1@[j].start_indices@[i] < b by {
                lemma_queues_max(self.waiting_queues@, k, j, i);
            }
            assert forall|t: int| 0 <= t < self.read_size@.len() implies #[trigger] self.read_size@[t] < b by {
                lemma_seq_max(self.read_size@, t);
            }
            assert forall|t: int| 0 <= t < self.num_tracks() implies #[trigger] self.is_eof(t) by {
                assert(start.is_eof(t));
            }
        }
        while self.any_waiting()
            invariant
                self.wf(),
                start.automaton() == aut,
                start.streams() == streams,
                self.skipped_starting_positions == start.skipped_starting_positions,
                self.automaton() == aut,
                streams == streams_of(self.sequences@),
                self.sequences@ == start.sequences@,
                self.read_size@ == start.read_size@,
                self.eof@ == start.eof@,
                forall|t: int| 0 <= t < self.num_tracks() ==> #[trigger] self.is_eof(t),
                d == aut.dimensions,
                b >= 1,
                entries_below(self.waiting_queues@, b),
                forall|t: int| 0 <= t < self.read_size@.len() ==> #[trigger] self.read_size@[t] < b,
                start.reported().len() <= self.reported().len(),
                self.reported().subrange(0, start.reported().len() as int) == start.reported(),
                forall|j: int| start.reported().len() <= j < self.reported().len() ==> sound_report(aut, streams, #[trigger] self.reported()[j]),
                self.waiting_queues@.len() == start.waiting_queues@.len(),
                forall|k: int| 0 <= k < self.waiting_queues@.len() ==> (#[trigger] self.waiting_queues@[k]).0@ == start.waiting_queues@[k].0@,
                forall|c: ConfigView| #[trigger] derivable(aut, streams, start.configs(), c) && aut.final_at(c.0 as int)
                    ==> self.reported().contains(report_of(c)),
                forall|k: int, path: Seq<Seq<usize>>, c: ConfigView| #[trigger] start.path_owed(k, path, c)
                    ==> self.reported().contains(report_of(c)) || exists|j: int|
                    0 <= j < path.len() && #[trigger] queue_view(self.waiting_queues@[k].1@).contains(path[j]),
            decreases position_total_measure(self.waiting_queues@, b, d),
        {
            let ghost before_clear = *self;
            self.automata_runner.clear();
            proof {
                assert forall|m: int| 0 <= m < self.waiting_queues@.len() implies #[trigger] self.queue_ok(m) by {
                    assert(before_clear.queue_ok(m));
                }
                assert forall|t: int| 0 <= t < self.num_tracks() implies #[trigger] self.is_eof(t) by {
                    assert(before_clear.is_eof(t));
                }
            }
            let n = self.waiting_queues.len();
            let ghost round_start = self.waiting_queues@;
            let ghost rep0 = self.reported();
            let ghost mut popped = false;
            for k in 0..n
                invariant
                    self.wf(),
                    self.skipped_starting_positions == start.skipped_starting_positions,
                    self.automaton() == aut,
                    streams == streams_of(self.sequences@),
                    self.sequences@ == start.sequences@,
                    self.read_size@ == start.read_size@,
                    self.eof@ == start.eof@,
                    forall|t: int| 0 <= t < self.num_tracks() ==> #[trigger] self.is_eof(t),
                    d == aut.dimensions,
                    b >= 1,
                    n == self.waiting_queues@.len(),
                    round_start.len() == n,
                    entries_below(self.waiting_queues@, b),
                    forall|t: int| 0 <= t < self.read_size@.len() ==> #[trigger] self.read_size@[t] < b,
                    forall|m: int| k <= m < n ==> #[trigger] self.waiting_queues@[m] == round_start[m],
                    popped ==> position_total_measure(self.waiting_queues@, b, d) < position_total_measure(round_start, b, d),
                    !popped ==> position_total_measure(self.waiting_queues@, b, d) == position_total_measure(round_start, b, d),
                    !popped ==> forall|m: int| 0 <= m < k ==> (#[trigger] round_start[m]).1@.len() == 0,
                    start.reported().len() <= self.reported().len(),
                    self.reported().subrange(0, start.reported().len() as int) == start.reported(),
                    forall|j: int| start.reported().len() <= j < self.reported().len() ==> sound_report(aut, streams, #[trigger] self.reported()[j]),
                    self.reported() == rep0,
                    forall|m: int| 0 <= m < n ==> (#[trigger] self.waiting_queues@[m]).0@ == start.waiting_queues@[m].0@,
                    forall|m: int| 0 <= m < n ==> (#[trigger] round_start[m]).0@ == start.waiting_queues@[m].0@,
                    start.waiting_queues@.len() == n,
                    forall|c: ConfigView| #[trigger] derivable(aut, streams, start.configs(), c) && aut.final_at(c.0 as int)
                        ==> rep0.contains(report_of(c)),
                    forall|k2: int, path: Seq<Seq<usize>>, c: ConfigView| #[trigger] start.path_owed(k2, path, c)
                        ==> rep0.contains(report_of(c)) || (exists|j: int|
                        0 <= j < path.len() && #[trigger] queue_view(self.waiting_queues@[k2].1@).contains(path[j]))
                        || (k2 < k && round_start[k2].1@.len() > 0 && path.last() == queue_view(round_start[k2].1@)[0]),
                    forall|k2: int, c0: ConfigView| 0 <= k2 < k && round_start[k2].1@.len() > 0
                        && #[trigger] trial_config(aut, streams, start.waiting_queues@[k2].0@, queue_view(round_start[k2].1@)[0], c0)
                        ==> self.configs().contains(c0),
            {
                let ghost before = *self;
                let ghost before_q = self.waiting_queues@;
                self.start_trial(k);
                proof {
                    assert forall|t: int| 0 <= t < self.num_tracks() implies #[trigger] self.is_eof(t) by {
                        assert(before.is_eof(t));
                    }
                    assert forall|j: int| start.reported().len() <= j < self.reported().len() implies sound_report(aut, streams, #[trigger] self.reported()[j]) by {
                        assert(self.reported()[j] == before.reported()[j]);
                    }
                    let newx = self.waiting_queues@[k as int];
                    assert(self.waiting_queues@ =~= before_q.update(k as int, newx));
                    lemma_position_total_update(before_q, k as int, newx, b, d);
                    assert(before.queue_ok(k as int));
                    assert forall|j: int, i: int| 0 <= j < newx.1@.len() && 0 <= i < newx.1@[j].start_indices@.len()
                        implies #[trigger] newx.1@[j].start_indices@[i] < b by {
                        assert(self.queue_ok(k as int));
                        if queue_view(before_q[k as int].1@).contains(newx.1@[j].start_indices@) {
                            let m = choose|m: int| 0 <= m < before_q[k as int].1@.len() && queue_view(before_q[k as int].1@)[m] == newx.1@[j].start_indices@;
                            assert(before_q[k as int].1@[m].start_indices@[i] < b);
                        } else {
                            assert(before.in_range_spec(newx.1@[j].start_indices@, newx.0@));
                            let id = newx.0@;
                            assert(id[i] < self.num_tracks());
                            assert(before.is_eof(id[i] as int));
                            assert(self.read_size@[id[i] as int] < b);
                        }
                    }
                    assert forall|kk: int, j: int, i: int|
                        0 <= kk < self.waiting_queues@.len() && 0 <= j < self.waiting_queues@[kk].1@.len() && 0 <= i < self.waiting_queues@[kk].1@[j].start_indices@.len()
                        implies #[trigger] self.waiting_queues@[kk].1@[j].start_indices@[i] < b by {
                        if kk != k {
                            assert(self.waiting_queues@[kk] == before_q[kk]);
                            assert(entries_below(before_q, b));
                            assert(before_q[kk].1@[j].start_indices@[i] < b);
                        } else {
                            assert(self.waiting_queues@[kk] == newx);
                            assert(newx.1@[j].start_indices@[i] < b);
                        }
                    }
                    if before_q[k as int].1@.len() > 0 {
                        let pv = before_q[k as int].1@[0].start_indices@;
                        assert(pv.len() == d);
                        assert forall|i: int| 0 <= i < pv.len() implies pv[i] < b by {
                            assert(before_q[k as int].1@[0].start_indices@[i] < b);
                        }
                        lemma_position_rank_bound(pv, b);
                        if newx.1@.len() > 0 {
                            let qv = newx.1@[0].start_indices@;
                            assert(self.queue_ok(k as int));
                            assert(qv.len() == d);
                            assert forall|i: int| 0 <= i < qv.len() implies qv[i] < b by {
                                assert(newx.1@[0].start_indices@[i] < b);
                            }
                            lemma_position_rank_bound(qv, b);
                            lemma_position_rank_less(pv, qv, b);
                        }
                        popped = true;
                    }
                    assert(self.waiting_queues@[k as int].0@ == before_q[k as int].0@);
                    assert forall|m: int| 0 <= m < n implies (#[trigger] self.waiting_queues@[m]).0@ == start.waiting_queues@[m].0@ by {
                        if m != k {
                            assert(self.waiting_queues@[m] == before_q[m]);
                        }
                    }
                    assert(before_q[k as int] == round_start[k as int]);
                    assert forall|c: ConfigView| before.configs().contains(c) implies #[trigger] self.configs().contains(c) by {
                    }
                    assert forall|k2: int, c0: ConfigView| 0 <= k2 < k + 1 && round_start[k2].1@.len() > 0
                        && #[trigger] trial_config(aut, streams, start.waiting_queues@[k2].0@, queue_view(round_start[k2].1@)[0], c0)
                        implies self.configs().contains(c0) by {
                        if k2 < k {
                            assert(before.configs().contains(c0));
                        } else {
                            assert(queue_view(before_q[k as int].1@)[0] == before_q[k as int].1@[0].start_indices@);
                        }
                    }
                    assert forall|k2: int, path: Seq<Seq<usize>>, c: ConfigView| #[trigger] start.path_owed(k2, path, c)
                        implies rep0.contains(report_of(c)) || (exists|j: int|
                        0 <= j < path.len() && #[trigger] queue_view(self.waiting_queues@[k2].1@).contains(path[j]))
                        || (k2 < k + 1 && round_start[k2].1@.len() > 0 && path.last() == queue_view(round_start[k2].1@)[0]) by {
                        if k2 != k {
                            if 0 <= k2 < n {
                                assert(self.waiting_queues@[k2] == before_q[k2]);
                            }
                        } else if !rep0.contains(report_of(c)) && exists|j: int|
                            0 <= j < path.len() && #[trigger] queue_view(before_q[k as int].1@).contains(path[j]) {
                            let j = choose|j: int| 0 <= j < path.len() && #[trigger] queue_view(before_q[k as int].1@).contains(path[j]);
                            let q0 = queue_view(before_q[k as int].1@);
                            if path[j] != q0[0] {
                                assert(queue_view(self.waiting_queues@[k as int].1@).contains(path[j]));
                            } else if j + 1 < path.len() {
                                let ids = start.tuple(k as int);
                                assert(next_position(path[j], path[j + 1]) && start.in_range_spec(path[j + 1], ids)
                                    && !start.ruled_out(ids, path[j + 1]));
                                assert(before.in_range_spec(path[j + 1], before_q[k as int].0@));
                                assert(before.ruled_out(ids, path[j + 1]) == start.ruled_out(ids, path[j + 1]));
                                assert(queue_view(self.waiting_queues@[k as int].1@).contains(path[j + 1]));
                            } else {
                                assert(path.last() == q0[0]);
                                assert(before_q[k as int] == round_start[k as int]);
                            }
                        }
                    }
                }
            }
            proof {
                if !popped {
                    let m = choose|m: int| 0 <= m < round_start.len() && (#[trigger] round_start[m]).1@.len() > 0;
                }
            }
            let ghost before_consume = *self;
            self.automata_runner.consume(&self.sequences);
            proof {
                assert forall|m: int| 0 <= m < self.waiting_queues@.len() implies #[trigger] self.queue_ok(m) by {
                    assert(before_consume.queue_ok(m));
                }
            }
            let ghost configs2 = self.configs();
            let ghost reported2 = self.reported();
            self.report_finals();
            proof {
                assert forall|j: int| start.reported().len() <= j < self.reported().len() implies sound_report(aut, streams, #[trigger] self.reported()[j]) by {
                    if j < reported2.len() {
                        assert(self.reported()[j] == reported2[j]);
                    } else {
                        let x = keep_final(aut, configs2)[j - reported2.len()];
                        assert(keep_final(aut, configs2).contains(x));
                        lemma_keep_final_contains(aut, configs2, x);
                        let m = choose|m: int| 0 <= m < configs2.len() && configs2[m] == x;
                        assert(config_valid(aut, streams, configs2[m]));
                        assert(self.reported()[j] == report_of(x));
                        assert(sound_report(aut, streams, report_of(x)));
                    }
                }
                assert(self.reported().subrange(0, start.reported().len() as int) =~= start.reported());
                assert forall|t: int| 0 <= t < self.num_tracks() implies #[trigger] self.is_eof(t) by {
                    assert(before_consume.is_eof(t));
                }
                assert forall|r: MatchingReport| rep0.contains(r) implies #[trigger] self.reported().contains(r) by {
                    let j = choose|j: int| 0 <= j < rep0.len() && rep0[j] == r;
                    assert(self.reported()[j] == r);
                }
                assert forall|c: ConfigView| #[trigger] derivable(aut, streams, start.configs(), c) && aut.final_at(c.0 as int)
                    implies self.reported().contains(report_of(c)) by {
                    assert(rep0.contains(report_of(c)));
                }
                assert forall|k2: int, path: Seq<Seq<usize>>, c: ConfigView| #[trigger] start.path_owed(k2, path, c)
                    implies self.reported().contains(report_of(c)) || exists|j: int|
                    0 <= j < path.len() && #[trigger] queue_view(self.waiting_queues@[k2].1@).contains(path[j]) by {
                    if rep0.contains(report_of(c)) {
                    } else if exists|j: int| 0 <= j < path.len() && #[trigger] queue_view(self.waiting_queues@[k2].1@).contains(path[j]) {
                    } else {
                        let p = path.last();
                        assert(round_start[k2].1@.len() > 0 && p == queue_view(round_start[k2].1@)[0]);
                        assert(start.tuple(k2) == start.waiting_queues@[k2].0@);
                        assert(trial_derivable(aut, streams, start.waiting_queues@[k2].0@, p, c));
                        let (c0, m) = choose|c0: ConfigView, m: nat| trial_config(aut, streams, start.waiting_queues@[k2].0@, p, c0)
                            && #[trigger] derives(aut, streams, c0, c, m);
                        assert(before_consume.configs().contains(c0));
                        assert(configs2.contains(c0));
                        lemma_found_reported(aut, streams, configs2, reported2, self.reported(), c0, c, m);
                    }
                }
            }
        }
        proof {
            assert forall|k: int, p: Seq<usize>, c: ConfigView|
                0 <= k < start.num_tuples() && start.queue_of(k).contains(p)
                    && #[trigger] trial_derivable(aut, streams, start.tuple(k), p, c)
                    && aut.final_at(c.0 as int) implies self.reported().contains(report_of(c)) by {
                let path = seq![p];
                assert(path.last() == p);
                assert(start.path_owed(k, path, c));
                if queue_view(self.waiting_queues@[k].1@).contains(p) {
                    assert(self.waiting_queues@[k].1@.len() > 0);
                }
            }
            assert forall|k: int, path: Seq<Seq<usize>>, c: ConfigView| #[trigger] start.path_owed(k, path, c)
                implies self.reported().contains(report_of(c)) by {
                if exists|j: int| 0 <= j < path.len() && #[trigger] queue_view(self.waiting_queues@[k].1@).contains(path[j]) {
                    let j = choose|j: int| 0 <= j < path.len() && #[trigger] queue_view(self.waiting_queues@[k].1@).contains(path[j]);
                    assert(self.waiting_queues@[k].1@.len() > 0);
                }
            }
        }
    }
}


impl<'a, Notifier: ResultNotifier> HyperPatternMatching for FJSHyperPatternMatching<'a, Notifier> {
    closed spec fn ready(&self) -> bool {
        self.wf()
    }

    closed spec fn tracks(&self) -> nat {
        self.num_tracks()
    }

    closed spec fn fed(&self) -> Seq<Seq<Seq<char>>> {
        self.streams()
    }

    proof fn lemma_fed_len(&self) {
    }

    closed spec fn ended(&self, track: int) -> bool {
        self.is_eof(track)
    }

    fn feed(&mut self, action: &str, track: usize)
        ensures
            final(self).automaton() == old(self).automaton(),
            final(self).num_tracks() == old(self).num_tracks(),
            forall|t: int| #[trigger] final(self).is_eof(t) == old(self).is_eof(t),
            final(self).streams() == old(self).streams().update(track as int, old(self).streams()[track as int].push(action@)),
            old(self).reported().len() <= final(self).reported().len(),
            final(self).reported().subrange(0, old(self).reported().len() as int) == old(self).reported(),
            forall|e: MatchingReport| #[trigger] final(self).reported().subrange(
                old(self).reported().len() as int,
                final(self).reported().len() as int,
            ).contains(e) ==> exists|c: ConfigView|
                derivable(final(self).automaton(), final(self).streams(), old(self).configs(), c)
                    && final(self).automaton().final_at(c.0 as int) && e == #[trigger] report_of(c),
            forall|c: ConfigView|
                derivable(final(self).automaton(), final(self).streams(), old(self).configs(), c)
                    && final(self).automaton().final_at(c.0 as int) ==> #[trigger] final(self).reported().subrange(
                    old(self).reported().len() as int,
                    final(self).reported().len() as int,
                ).contains(report_of(c)),
    {
        FJSHyperPatternMatching::feed(self, action, track);
    }

    fn dimensions(&self) -> (r: usize) {
        self.sequences.len()
    }

    fn consume_remaining(&mut self)
        ensures
            final(self).automaton() == old(self).automaton(),
            final(self).streams() == old(self).streams(),
            final(self).num_tracks() == old(self).num_tracks(),
            forall|t: int| #[trigger] final(self).is_eof(t) == old(self).is_eof(t),
            final(self).queues_empty(),
            old(self).reported().len() <= final(self).reported().len(),
            final(self).reported().subrange(0, old(self).reported().len() as int) == old(self).reported(),
            forall|j: int| old(self).reported().len() <= j < final(self).reported().len() ==> sound_report(
                final(self).automaton(),
                final(self).streams(),
                #[trigger] final(self).reported()[j],
            ),
    {
        proof {
            assert forall|t: int| 0 <= t < self.num_tracks() implies #[trigger] self.is_eof(t) by {
                assert(self.ended(t));
            }
        }
        FJSHyperPatternMatching::consume_remaining(self);
    }

    fn set_eof(&mut self, track: usize) {
        FJSHyperPatternMatching::set_eof(self, track);
    }
}

} // verus!
