use vstd::prelude::*;
use crate::dfa::distinct;
use crate::automata::Automata;
use crate::hyper_pattern_matching::{
    ConfigView, HyperPatternMatching, PatternMatchingAutomataConfiguration, PatternMatchingAutomataRunner,
    closed_at, config_valid, derivable, derives, keep_final, lemma_closed_contains_derived, lemma_keep_final_contains,
    lemma_valid_extend, starts_of, streams_of, copy_positions, waiting_view, keep_waiting, lemma_keep_waiting_contains,
};
use crate::result_notifier::{MatchingInterval, ResultNotifier};
use crate::sequence::{AppendOnlySequence, ReadableView};
pub use crate::start_position::StartPosition;
use crate::start_position::{
    copy_start_position, insert_position, lex_less, lemma_lex_increment, lemma_lex_transitive, lemma_rank_bound,
    lemma_lex_irreflexive,
    lemma_rank_lex, power, queue_view, rank_from, sorted_strict,
};
use itertools::Itertools;
use crate::filtered_single_hyper_pattern_matching::{next_position, unit_position};

verus! {

/// All tuples of `dims` indices below `n`, in increasing lexicographic
/// order (`Itertools::multi_cartesian_product` over `dims` copies of
/// `0..n`): one empty tuple when `dims` is 0, none when `n` is 0 and `dims`
/// is not.
#[verifier::external_body]
pub(crate) fn index_tuples(n: usize, dims: usize) -> (r: Vec<Vec<usize>>)
    ensures
        forall|k: int| 0 <= k < r@.len() ==> (#[trigger] r@[k])@.len() == dims,
        forall|k: int, i: int| 0 <= k < r@.len() && 0 <= i < dims ==> #[trigger] r@[k]@[i] < n,
        forall|t: Seq<usize>|
            t.len() == dims && (forall|i: int| 0 <= i < dims ==> #[trigger] t[i] < n) ==> exists|k: int|
                0 <= k < r@.len() && (#[trigger] r@[k])@ == t,
        forall|j: int, k: int| 0 <= j < k < r@.len() ==> lex_less(r@[j]@, r@[k]@),
{
    vec![0..n; dims].into_iter().multi_cartesian_product().collect_vec()
}

/// The last position of an interval that ends just before `pos`; an empty
/// interval at the very beginning ends at `usize::MAX`, as the subtraction
/// wraps around.
pub open spec fn interval_end(pos: usize) -> usize {
    if pos == 0 {
        usize::MAX
    } else {
        (pos - 1) as usize
    }
}

/// A reported matching: an interval per variable, and the stream each
/// variable reads.
pub type MatchingReport = (Seq<MatchingInterval>, Seq<usize>);

/// The matching reported for a configuration: in each dimension, from the
/// position where the matching began to the last position read.
pub open spec fn report_of(c: ConfigView) -> MatchingReport {
    (Seq::new(c.1.len(), |i: int| MatchingInterval { start: c.2[i], end: interval_end(c.1[i]) }), c.3)
}

/// The reading positions from which a matching at the start position `p`
/// over the streams `ids` begins: each index of `p`, or the end of its
/// stream where it lies beyond.
pub open spec fn trial_starts(streams: Seq<Seq<Seq<char>>>, ids: Seq<usize>, p: Seq<usize>) -> Seq<usize> {
    Seq::new(
        ids.len(),
        |m: int|
            if p[m] < streams[ids[m] as int].len() {
                p[m]
            } else {
                streams[ids[m] as int].len() as usize
            },
    )
}

/// `c` is a configuration at an initial state of `aut` from which a
/// matching at the start position `p` over the streams `ids` begins.
pub open spec fn trial_config(
    aut: Automata<(String, usize)>,
    streams: Seq<Seq<Seq<char>>>,
    ids: Seq<usize>,
    p: Seq<usize>,
    c: ConfigView,
) -> bool {
    exists|i: int|
        0 <= i < aut.initial_states@.len() && c == (
            #[trigger] aut.initial_states@[i],
            trial_starts(streams, ids, p),
            trial_starts(streams, ids, p),
            ids,
        )
}

/// `c` is reached by transitions from a configuration that starts a
/// matching at the start position `p` over the streams `ids`.
pub open spec fn trial_derivable(
    aut: Automata<(String, usize)>,
    streams: Seq<Seq<Seq<char>>>,
    ids: Seq<usize>,
    p: Seq<usize>,
    c: ConfigView,
) -> bool {
    exists|c0: ConfigView, n: nat| trial_config(aut, streams, ids, p, c0) && #[trigger] derives(aut, streams, c0, c, n)
}

/// A configuration at a final state reached from a closed list of
/// configurations is among the matchings reported for that list.
pub(crate) proof fn lemma_found_reported(
    aut: Automata<(String, usize)>,
    streams: Seq<Seq<Seq<char>>>,
    configs: Seq<ConfigView>,
    rep0: Seq<MatchingReport>,
    rep: Seq<MatchingReport>,
    c0: ConfigView,
    c: ConfigView,
    n: nat,
)
    requires
        configs.contains(c0),
        forall|x: ConfigView| #[trigger] configs.contains(x) ==> closed_at(aut, streams, configs, x),
        derives(aut, streams, c0, c, n),
        aut.final_at(c.0 as int),
        rep == rep0 + reports_of(keep_final(aut, configs)),
    ensures
        rep.contains(report_of(c)),
{
    lemma_closed_contains_derived(aut, streams, configs, c0, c, n);
    lemma_keep_final_contains(aut, configs, c);
    let kf = keep_final(aut, configs);
    let j = choose|j: int| 0 <= j < kf.len() && kf[j] == c;
    assert(rep[rep0.len() + j] == report_of(c));
}

/// Some configuration of `cs` reads the tuple of streams `ids`.
pub open spec fn running(cs: Seq<ConfigView>, ids: Seq<usize>) -> bool {
    exists|j: int| 0 <= j < cs.len() && (#[trigger] cs[j]).3 == ids
}

/// No two tuples of `qs` are the same.
pub open spec fn tuples_distinct(qs: Seq<(Vec<usize>, Vec<StartPosition>)>) -> bool {
    forall|a: int, b: int| 0 <= a < qs.len() && 0 <= b < qs.len() && a != b ==> (#[trigger] qs[a]).0@ != (#[trigger] qs[b]).0@
}

/// `e` is the matching of a valid configuration at a final state.
pub open spec fn sound_report(aut: Automata<(String, usize)>, streams: Seq<Seq<Seq<char>>>, e: MatchingReport) -> bool {
    exists|c: ConfigView| config_valid(aut, streams, c) && aut.final_at(c.0 as int) && e == #[trigger] report_of(c)
}

/// The matchings reported for a list of configurations, in order.
pub open spec fn reports_of(cs: Seq<ConfigView>) -> Seq<MatchingReport> {
    cs.map_values(|c: ConfigView| report_of(c))
}

/// The intervals reported for a configuration.
pub(crate) fn intervals_of(c: &PatternMatchingAutomataConfiguration) -> (r: Vec<MatchingInterval>)
    requires
        c.matching_begin@.len() == c.input_sequence@.len(),
    ensures
        r@ == report_of(c@).0,
{
    let mut r: Vec<MatchingInterval> = Vec::new();
    for i in 0..c.input_sequence.len()
        invariant
            c.matching_begin@.len() == c.input_sequence@.len(),
            r@ == report_of(c@).0.subrange(0, i as int),
    {
        let pos = c.input_sequence[i].start;
        let end = if pos == 0 {
            usize::MAX
        } else {
            pos - 1
        };
        r.push(MatchingInterval { start: c.matching_begin[i], end });
        assert(r@ =~= report_of(c@).0.subrange(0, i + 1));
    }
    assert(r@ =~= report_of(c@).0);
    r
}

/// The naive hyper pattern matching: for every tuple of streams, one for
/// each variable, it runs the automaton from start positions taken in
/// increasing lexicographic order, one trial at a time, and reports every
/// configuration that reaches a final state.
pub struct NaiveHyperPatternMatching<'a, Notifier: ResultNotifier> {
    automata_runner: PatternMatchingAutomataRunner<'a>,
    notifier: Notifier,
    sequences: Vec<AppendOnlySequence<String>>,
    read_size: Vec<usize>,
    waiting_queues: Vec<(Vec<usize>, Vec<StartPosition>)>,
    eof: Vec<bool>,
    reported: Ghost<Seq<MatchingReport>>,
}

impl<'a, Notifier: ResultNotifier> NaiveHyperPatternMatching<'a, Notifier> {
    /// The automaton being run.
    pub closed spec fn automaton(&self) -> Automata<(String, usize)> {
        self.automata_runner.automaton()
    }

    /// The contents of the streams.
    pub closed spec fn streams(&self) -> Seq<Seq<Seq<char>>> {
        streams_of(self.sequences@)
    }

    /// The current configurations.
    pub closed spec fn configs(&self) -> Seq<ConfigView> {
        self.automata_runner.configs()
    }

    /// The number of tuples of streams.
    pub closed spec fn num_tuples(&self) -> nat {
        self.waiting_queues@.len()
    }

    /// The `k`-th tuple of streams: the stream each variable reads.
    pub closed spec fn tuple(&self, k: int) -> Seq<usize> {
        self.waiting_queues@[k].0@
    }

    /// The start positions waiting for the `k`-th tuple, in increasing
    /// lexicographic order.
    pub closed spec fn queue_of(&self, k: int) -> Seq<Seq<usize>> {
        queue_view(self.waiting_queues@[k].1@)
    }

    /// Configuration `c` waits for input: one of its variables has read
    /// all of a stream that has not been closed.
    pub closed spec fn waits(&self, c: ConfigView) -> bool {
        waiting_view(self.sequences@, c)
    }

    /// After running from the configurations of `before` over the current
    /// streams and keeping those that wait, one of them reads the `k`-th
    /// tuple.
    pub open spec fn kept_runs(&self, before: Self, k: int) -> bool {
        exists|c: ConfigView|
            derivable(self.automaton(), self.streams(), before.configs(), c) && #[trigger] self.waits(c) && c.3
                == before.tuple(k)
    }

    /// `path` goes from its first start position to its last through
    /// immediate successors, each in range for the tuple `ids`.
    pub open spec fn steps(&self, ids: Seq<usize>, path: Seq<Seq<usize>>) -> bool {
        &&& path.len() > 0
        &&& forall|j: int| 0 <= j < path.len() - 1 ==> next_position(#[trigger] path[j], path[j + 1]) && self.in_range_spec(path[j + 1], ids)
    }

    /// The `k`-th tuple waits for the first start position of `path`, which
    /// leads through in-range successors to its last one, and a matching
    /// from the last one reaches the configuration `c` at a final state.
    pub open spec fn path_owed(&self, k: int, path: Seq<Seq<usize>>, c: ConfigView) -> bool {
        &&& 0 <= k < self.num_tuples()
        &&& self.queue_of(k).contains(path[0])
        &&& self.steps(self.tuple(k), path)
        &&& trial_derivable(self.automaton(), self.streams(), self.tuple(k), path.last(), c)
        &&& self.automaton().final_at(c.0 as int)
    }

    /// Every matching handed to the notifier so far, in order.
    pub closed spec fn reported(&self) -> Seq<MatchingReport> {
        self.reported@
    }

    /// Whether the stream `t` has ended.
    pub closed spec fn is_eof(&self, t: int) -> bool {
        0 <= t < self.eof@.len() && self.eof@[t]
    }

    /// The number of lines read from the stream `t`.
    pub closed spec fn read_count(&self, t: int) -> nat {
        self.read_size@[t] as nat
    }

    /// The number of streams.
    pub closed spec fn num_tracks(&self) -> nat {
        self.sequences@.len()
    }

    /// A tuple of streams, one per variable.
    pub closed spec fn key_ok(&self, id: Seq<usize>) -> bool {
        &&& id.len() == self.automaton().dimensions
        &&& forall|i: int| 0 <= i < id.len() ==> #[trigger] id[i] < self.sequences@.len()
    }

    /// The waiting queue of `k` is sorted and holds a position per variable.
    pub closed spec fn queue_ok(&self, k: int) -> bool {
        &&& self.key_ok(self.waiting_queues@[k].0@)
        &&& sorted_strict(queue_view(self.waiting_queues@[k].1@))
        &&& forall|j: int| 0 <= j < self.waiting_queues@[k].1@.len()
            ==> (#[trigger] self.waiting_queues@[k].1@[j]).start_indices@.len() == self.automaton().dimensions
    }

    /// No index of `x` lies at or past the end of an ended stream of `ids`.
    pub open spec fn in_range_spec(&self, x: Seq<usize>, ids: Seq<usize>) -> bool {
        forall|i: int| 0 <= i < ids.len() ==> !(self.is_eof(#[trigger] ids[i] as int) && x[i] >= self.read_count(ids[i] as int))
    }

    /// There is a line count and an end mark per stream.
    pub closed spec fn tracks_ok(&self) -> bool {
        &&& self.read_size@.len() == self.sequences@.len()
        &&& self.eof@.len() == self.sequences@.len()
    }

    /// The internal state is consistent.
    pub closed spec fn wf(&self) -> bool {
        &&& self.automata_runner.inv(streams_of(self.sequences@))
        &&& self.tracks_ok()
        &&& forall|t: int| 0 <= t < self.sequences@.len() ==> #[trigger] self.read_size@[t] <= self.sequences@[t].items().len()
        &&& forall|t: int| 0 <= t < self.sequences@.len() && #[trigger] self.eof@[t] ==> self.sequences@[t].is_closed_spec()
        &&& forall|k: int| 0 <= k < self.waiting_queues@.len() ==> #[trigger] self.queue_ok(k)
        &&& tuples_distinct(self.waiting_queues@)
    }

    /// Starts a matching over `sequences` for every tuple of streams, from
    /// the first position of each; the next start positions wait in a queue.
    pub fn new(
        automaton: &'a Automata<(String, usize)>,
        notifier: Notifier,
        sequences: Vec<AppendOnlySequence<String>>,
    ) -> (r: Self)
        requires
            automaton.wf(),
        ensures
            r.wf(),
            r.automaton() == *automaton,
            r.streams() == streams_of(sequences@),
            r.reported() == Seq::<MatchingReport>::empty(),
            r.num_tracks() == sequences@.len(),
            forall|t: int| !#[trigger] r.is_eof(t),
            forall|k: int| 0 <= k < r.num_tuples() ==> (#[trigger] r.tuple(k)).len() == automaton.dimensions,
            forall|k: int, i: int|
                0 <= k < r.num_tuples() && 0 <= i < automaton.dimensions ==> #[trigger] r.tuple(k)[i] < sequences@.len(),
            forall|x: Seq<usize>|
                x.len() == automaton.dimensions && (forall|i: int| 0 <= i < x.len() ==> #[trigger] x[i] < sequences@.len())
                    ==> exists|k: int| 0 <= k < r.num_tuples() && #[trigger] r.tuple(k) == x,
            forall|j: int, k: int| 0 <= j < k < r.num_tuples() ==> lex_less(r.tuple(j), r.tuple(k)),
            forall|k: int, x: Seq<usize>| 0 <= k < r.num_tuples() ==> (#[trigger] r.queue_of(k).contains(x) <==> exists|i: int|
                0 <= i < automaton.dimensions && x == #[trigger] unit_position(automaton.dimensions as nat, i)),
            forall|c: ConfigView| #[trigger] r.configs().contains(c) <==> exists|k: int, i: int|
                0 <= k < r.num_tuples() && 0 <= i < automaton.initial_states@.len() && c == (
                    #[trigger] automaton.initial_states@[i],
                    Seq::new(automaton.dimensions as nat, |m: int| 0usize),
                    Seq::new(automaton.dimensions as nat, |m: int| 0usize),
                    #[trigger] r.tuple(k),
                ),
    {
        let n = sequences.len();
        let dims = automaton.dimensions;
        let mut automata_runner = PatternMatchingAutomataRunner::new(automaton);
        let mut read_size: Vec<usize> = Vec::new();
        let mut eof: Vec<bool> = Vec::new();
        for t in 0..n
            invariant
                read_size@.len() == t,
                eof@.len() == t,
                forall|k: int| 0 <= k < t ==> read_size@[k] == 0 && !eof@[k],
        {
            read_size.push(0);
            eof.push(false);
        }
        let mut zeros: Vec<usize> = Vec::new();
        for i in 0..dims
            invariant
                zeros@.len() == i,
                forall|k: int| 0 <= k < i ==> zeros@[k] == 0,
        {
            zeros.push(0);
        }
        let ghost zv = zeros@;
        assert(zv =~= Seq::new(dims as nat, |m: int| 0usize));
        let origin = StartPosition { start_indices: zeros };
        let successors = origin.immediate_successors();
        let mut first_queue: Vec<StartPosition> = Vec::new();
        for i in 0..successors.len()
            invariant
                successors@.len() == dims,
                zv == Seq::new(dims as nat, |m: int| 0usize),
                forall|k: int| 0 <= k < successors@.len() ==> #[trigger] successors@[k].start_indices@ == zv.update(k, (zv[k] + 1) as usize),
                forall|k: int| 0 <= k < successors@.len() ==> (#[trigger] successors@[k]).start_indices@.len() == dims,
                sorted_strict(queue_view(first_queue@)),
                forall|j: int| 0 <= j < first_queue@.len() ==> (#[trigger] first_queue@[j]).start_indices@.len() == dims,
                forall|x: Seq<usize>| #[trigger] queue_view(first_queue@).contains(x) <==> exists|m: int|
                    0 <= m < i && x == #[trigger] unit_position(dims as nat, m),
        {
            let p = copy_start_position(&successors[i]);
            let ghost before = queue_view(first_queue@);
            insert_position(&mut first_queue, p);
            proof {
                assert forall|x: Seq<usize>| #[trigger] queue_view(first_queue@).contains(x) <==> exists|m: int|
                    0 <= m < i + 1 && x == #[trigger] unit_position(dims as nat, m) by {
                    if x == p.start_indices@ {
                        assert(x == unit_position(dims as nat, i as int));
                    }
                    if exists|m: int| 0 <= m < i + 1 && x == #[trigger] unit_position(dims as nat, m) {
                        let m = choose|m: int| 0 <= m < i + 1 && x == #[trigger] unit_position(dims as nat, m);
                        if m == i {
                            assert(x == p.start_indices@);
                        }
                    }
                }
                assert forall|j: int| 0 <= j < first_queue@.len() implies (#[trigger] first_queue@[j]).start_indices@.len() == dims by {
                    assert(queue_view(first_queue@).contains(queue_view(first_queue@)[j]));
                    if before.contains(queue_view(first_queue@)[j]) {
                        let m = choose|m: int| 0 <= m < before.len() && before[m] == queue_view(first_queue@)[j];
                    }
                }
            }
        }
        let ids = index_tuples(n, dims);
        let mut waiting_queues: Vec<(Vec<usize>, Vec<StartPosition>)> = Vec::new();
        let ghost streams = streams_of(sequences@);
        for k in 0..ids.len()
            invariant
                automaton.wf(),
                n == sequences@.len(),
                dims == automaton.dimensions,
                streams == streams_of(sequences@),
                automata_runner.inv(streams),
                automata_runner.automaton() == *automaton,
                waiting_queues@.len() == k,
                forall|m: int| 0 <= m < ids@.len() ==> (#[trigger] ids@[m])@.len() == dims,
                forall|m: int, i: int| 0 <= m < ids@.len() && 0 <= i < dims ==> #[trigger] ids@[m]@[i] < n,
                sorted_strict(queue_view(first_queue@)),
                forall|j: int| 0 <= j < first_queue@.len() ==> (#[trigger] first_queue@[j]).start_indices@.len() == dims,
                forall|m: int| 0 <= m < k ==> {
                    &&& (#[trigger] waiting_queues@[m]).0@.len() == dims
                    &&& forall|i: int| 0 <= i < dims ==> #[trigger] waiting_queues@[m].0@[i] < n
                    &&& sorted_strict(queue_view(waiting_queues@[m].1@))
                    &&& forall|j: int| 0 <= j < waiting_queues@[m].1@.len()
                        ==> (#[trigger] waiting_queues@[m].1@[j]).start_indices@.len() == dims
                    &&& waiting_queues@[m].0@ == ids@[m]@
                    &&& queue_view(waiting_queues@[m].1@) == queue_view(first_queue@)
                },
                forall|x: Seq<usize>| #[trigger] queue_view(first_queue@).contains(x) <==> exists|m: int|
                    0 <= m < dims && x == #[trigger] unit_position(dims as nat, m),
                forall|c: ConfigView| #[trigger] automata_runner.configs().contains(c) <==> exists|m: int, i: int|
                    0 <= m < k && 0 <= i < automaton.initial_states@.len() && c == (
                        #[trigger] automaton.initial_states@[i],
                        Seq::new(dims as nat, |q: int| 0usize),
                        Seq::new(dims as nat, |q: int| 0usize),
                        #[trigger] ids@[m]@,
                    ),
        {
            let mut views: Vec<ReadableView> = Vec::new();
            for i in 0..dims
                invariant
                    views@.len() == i,
                    forall|j: int| 0 <= j < i ==> (#[trigger] views@[j]).start == 0,
            {
                views.push(ReadableView::new());
            }
            let mut queue: Vec<StartPosition> = Vec::new();
            for j in 0..first_queue.len()
                invariant
                    queue@.len() == j,
                    forall|m: int| 0 <= m < j ==> (#[trigger] queue@[m]).start_indices@ == first_queue@[m].start_indices@,
            {
                queue.push(copy_start_position(&first_queue[j]));
            }
            assert(queue_view(queue@) =~= queue_view(first_queue@));
            let id = copy_positions(&ids[k]);
            let ghost old_cfgs = automata_runner.configs();
            proof {
                assert(starts_of(views@) =~= Seq::new(dims as nat, |q: int| 0usize));
            }
            automata_runner.insert_from_initial_states(views, copy_positions(&ids[k]));
            proof {
                assert forall|c: ConfigView| #[trigger] automata_runner.configs().contains(c) <==> exists|m: int, i: int|
                    0 <= m < k + 1 && 0 <= i < automaton.initial_states@.len() && c == (
                        #[trigger] automaton.initial_states@[i],
                        Seq::new(dims as nat, |q: int| 0usize),
                        Seq::new(dims as nat, |q: int| 0usize),
                        #[trigger] ids@[m]@,
                    ) by {
                    if exists|m: int, i: int|
                        0 <= m < k + 1 && 0 <= i < automaton.initial_states@.len() && c == (
                            #[trigger] automaton.initial_states@[i],
                            Seq::new(dims as nat, |q: int| 0usize),
                            Seq::new(dims as nat, |q: int| 0usize),
                            #[trigger] ids@[m]@,
                        ) {
                        let (m, i) = choose|m: int, i: int|
                            0 <= m < k + 1 && 0 <= i < automaton.initial_states@.len() && c == (
                                #[trigger] automaton.initial_states@[i],
                                Seq::new(dims as nat, |q: int| 0usize),
                                Seq::new(dims as nat, |q: int| 0usize),
                                #[trigger] ids@[m]@,
                            );
                        if m == k {
                            assert(c == (automaton.initial_states@[i], starts_of(views@), starts_of(views@), ids@[k as int]@));
                        }
                    }
                }
            }
            proof {
                assert forall|j: int| 0 <= j < automata_runner.configs().len() implies config_valid(*automaton, streams, #[trigger] automata_runner.configs()[j]) by {
                    let c = automata_runner.configs()[j];
                    assert(automata_runner.configs().contains(c));
                    if !old_cfgs.contains(c) {
                        let i = choose|i: int| 0 <= i < automaton.initial_states@.len() && c == (
                            #[trigger] automaton.initial_states@[i],
                            starts_of(views@),
                            starts_of(views@),
                            ids@[k as int]@,
                        );
                        assert(automaton.initial_states@[i] < automaton.num_states());
                        assert forall|m: int| 0 <= m < c.1.len() implies #[trigger] c.3[m] < streams.len() && c.1[m] <= streams[c.3[m] as int].len() by {
                            assert(views@[m].start == 0);
                        }
                    } else {
                        let m = choose|m: int| 0 <= m < old_cfgs.len() && old_cfgs[m] == c;
                    }
                }
            }
            waiting_queues.push((id, queue));
        }
        let r = Self {
            automata_runner,
            notifier,
            sequences,
            read_size,
            waiting_queues,
            eof,
            reported: Ghost(Seq::empty()),
        };
        proof {
            assert forall|k: int| 0 <= k < r.waiting_queues@.len() implies #[trigger] r.queue_ok(k) by {
                assert(r.waiting_queues@[k].0@.len() == dims);
            }
            assert forall|a: int, b: int| 0 <= a < r.waiting_queues@.len() && 0 <= b < r.waiting_queues@.len() && a != b
                implies (#[trigger] r.waiting_queues@[a]).0@ != (#[trigger] r.waiting_queues@[b]).0@ by {
                if a < b {
                    assert(lex_less(ids@[a]@, ids@[b]@));
                    if ids@[a]@ == ids@[b]@ {
                        lemma_lex_irreflexive(ids@[a]@, 0);
                    }
                } else {
                    assert(lex_less(ids@[b]@, ids@[a]@));
                    if ids@[a]@ == ids@[b]@ {
                        lemma_lex_irreflexive(ids@[a]@, 0);
                    }
                }
            }
            assert forall|x: Seq<usize>|
                x.len() == dims && (forall|i: int| 0 <= i < x.len() ==> #[trigger] x[i] < n)
                    implies exists|k: int| 0 <= k < r.num_tuples() && #[trigger] r.tuple(k) == x by {
                let k = choose|k: int| 0 <= k < ids@.len() && (#[trigger] ids@[k])@ == x;
                assert(r.tuple(k) == x);
            }
            assert forall|c: ConfigView| #[trigger] r.configs().contains(c) <==> exists|k: int, i: int|
                0 <= k < r.num_tuples() && 0 <= i < automaton.initial_states@.len() && c == (
                    #[trigger] automaton.initial_states@[i],
                    Seq::new(automaton.dimensions as nat, |m: int| 0usize),
                    Seq::new(automaton.dimensions as nat, |m: int| 0usize),
                    #[trigger] r.tuple(k),
                ) by {
                if r.configs().contains(c) {
                    let (m, i) = choose|m: int, i: int|
                        0 <= m < ids@.len() && 0 <= i < automaton.initial_states@.len() && c == (
                            #[trigger] automaton.initial_states@[i],
                            Seq::new(dims as nat, |q: int| 0usize),
                            Seq::new(dims as nat, |q: int| 0usize),
                            #[trigger] ids@[m]@,
                        );
                    assert(r.tuple(m) == ids@[m]@);
                }
                if exists|k: int, i: int|
                    0 <= k < r.num_tuples() && 0 <= i < automaton.initial_states@.len() && c == (
                        #[trigger] automaton.initial_states@[i],
                        Seq::new(automaton.dimensions as nat, |m: int| 0usize),
                        Seq::new(automaton.dimensions as nat, |m: int| 0usize),
                        #[trigger] r.tuple(k),
                    ) {
                    let (k, i) = choose|k: int, i: int|
                        0 <= k < r.num_tuples() && 0 <= i < automaton.initial_states@.len() && c == (
                            #[trigger] automaton.initial_states@[i],
                            Seq::new(automaton.dimensions as nat, |m: int| 0usize),
                            Seq::new(automaton.dimensions as nat, |m: int| 0usize),
                            #[trigger] r.tuple(k),
                        );
                    assert(r.tuple(k) == ids@[k]@);
                }
            }
        }
        r
    }
}


impl<'a, Notifier: ResultNotifier> NaiveHyperPatternMatching<'a, Notifier> {
    /// Whether `start_position` may still start a matching over the streams
    /// `ids`: no index lies at or past the end of an ended stream.
    pub fn in_range(&self, start_position: &StartPosition, ids: &Vec<usize>) -> (r: bool)
        requires
            self.tracks_ok(),
            start_position.start_indices@.len() == ids@.len(),
            forall|i: int| 0 <= i < ids@.len() ==> #[trigger] ids@[i] < self.num_tracks(),
        ensures
            r == forall|i: int| 0 <= i < ids@.len() ==> !(self.is_eof(#[trigger] ids@[i] as int)
                && start_position.start_indices@[i] >= self.read_count(ids@[i] as int)),
    {
        for i in 0..start_position.start_indices.len()
            invariant
                self.tracks_ok(),
                start_position.start_indices@.len() == ids@.len(),
                forall|i: int| 0 <= i < ids@.len() ==> #[trigger] ids@[i] < self.num_tracks(),
                forall|k: int| 0 <= k < i ==> !(self.is_eof(#[trigger] ids@[k] as int)
                    && start_position.start_indices@[k] >= self.read_size@[ids@[k] as int]),
        {
            if self.eof[ids[i]] && start_position.start_indices[i] >= self.read_size[ids[i]] {
                return false;
            }
        }
        true
    }

    /// Hands every configuration at a final state to the notifier.
    fn report_finals(&mut self)
        requires
            old(self).wf(),
        ensures
            final(self).wf(),
            final(self).automaton() == old(self).automaton(),
            final(self).streams() == old(self).streams(),
            final(self).configs() == old(self).configs(),
            final(self).num_tracks() == old(self).num_tracks(),
            forall|t: int| #[trigger] final(self).is_eof(t) == old(self).is_eof(t),
            final(self).sequences@ == old(self).sequences@,
            final(self).read_size@ == old(self).read_size@,
            final(self).waiting_queues@ == old(self).waiting_queues@,
            final(self).eof@ == old(self).eof@,
            final(self).reported() == old(self).reported() + reports_of(keep_final(old(self).automaton(), old(self).configs())),
    {
        let ghost aut = self.automaton();
        let ghost cs = self.configs();
        let ghost streams = streams_of(self.sequences@);
        proof {
            assert forall|j: int| 0 <= j < cs.len() implies (#[trigger] cs[j]).0 < aut.num_states() by {
                assert(config_valid(aut, streams, cs[j]));
            }
        }
        let finals = self.automata_runner.get_final_configurations();
        let ghost start = self.reported@;
        let ghost seqs0 = self.sequences@;
        let ghost rs0 = self.read_size@;
        let ghost wq0 = self.waiting_queues@;
        let ghost eof0 = self.eof@;
        let ghost runner0 = self.automata_runner;
        proof {
            assert forall|j: int| 0 <= j < finals@.len() implies (#[trigger] finals@[j]).matching_begin@.len() == finals@[j].input_sequence@.len() by {
                let x = finals@[j]@;
                assert(finals@.map_values(|c: &PatternMatchingAutomataConfiguration| c@)[j] == x);
                assert(keep_final(aut, cs).contains(x));
                lemma_keep_final_contains(aut, cs, x);
                let m = choose|m: int| 0 <= m < cs.len() && cs[m] == x;
                assert(config_valid(aut, streams, cs[m]));
                assert(starts_of(finals@[j].input_sequence@).len() == finals@[j].input_sequence@.len());
            }
        }
        for i in 0..finals.len()
            invariant
                self.wf(),
                self.automaton() == aut,
                self.configs() == cs,
                self.sequences@ == seqs0,
                self.read_size@ == rs0,
                self.waiting_queues@ == wq0,
                self.eof@ == eof0,
                self.automata_runner == runner0,
                finals@.map_values(|c: &PatternMatchingAutomataConfiguration| c@) == keep_final(aut, cs),
                self.reported@ == start + reports_of(keep_final(aut, cs).subrange(0, i as int)),
                forall|j: int| 0 <= j < finals@.len() ==> (#[trigger] finals@[j]).matching_begin@.len() == finals@[j].input_sequence@.len(),
        {
            let c = finals[i];
            let intervals = intervals_of(c);
            let ghost before = *self;
            self.notifier.notify(intervals.as_slice(), c.ids.as_slice());
            proof {
                assert(keep_final(aut, cs)[i as int] == c@);
                self.reported@ = self.reported@.push(report_of(c@));
                assert(reports_of(keep_final(aut, cs).subrange(0, i + 1)) =~= reports_of(keep_final(aut, cs).subrange(0, i as int)).push(report_of(c@)));
                assert forall|k: int| 0 <= k < self.waiting_queues@.len() implies #[trigger] self.queue_ok(k) by {
                    assert(before.queue_ok(k));
                }
            }
        }
        proof {
            assert(keep_final(aut, cs).subrange(0, finals@.len() as int) =~= keep_final(aut, cs));
        }
    }
}


/// Whether every index is below `usize::MAX`, so that each can be moved forward.
pub(crate) fn all_below_max(p: &StartPosition) -> (r: bool)
    ensures
        r == forall|i: int| 0 <= i < p.start_indices@.len() ==> #[trigger] p.start_indices@[i] < usize::MAX,
{
    for i in 0..p.start_indices.len()
        invariant
            forall|k: int| 0 <= k < i ==> #[trigger] p.start_indices@[k] < usize::MAX,
    {
        if p.start_indices[i] == usize::MAX {
            return false;
        }
    }
    true
}

impl<'a, Notifier: ResultNotifier> NaiveHyperPatternMatching<'a, Notifier> {
    /// Takes the smallest waiting start position of the `k`-th tuple of
    /// streams, queues those of its immediate successors that are still in
    /// range, and starts a matching from it.
    fn start_trial(&mut self, k: usize)
        requires
            old(self).wf(),
            k < old(self).waiting_queues@.len(),
        ensures
            final(self).wf(),
            final(self).automaton() == old(self).automaton(),
            final(self).sequences@ == old(self).sequences@,
            final(self).read_size@ == old(self).read_size@,
            final(self).eof@ == old(self).eof@,
            final(self).reported() == old(self).reported(),
            final(self).waiting_queues@.len() == old(self).waiting_queues@.len(),
            forall|m: int| 0 <= m < old(self).waiting_queues@.len() && m != k ==> #[trigger] final(self).waiting_queues@[m] == old(self).waiting_queues@[m],
            final(self).waiting_queues@[k as int].0@ == old(self).waiting_queues@[k as int].0@,
            old(self).waiting_queues@[k as int].1@.len() == 0 ==> final(self).waiting_queues@[k as int].1@ == old(self).waiting_queues@[k as int].1@,
            old(self).waiting_queues@[k as int].1@.len() > 0 ==> forall|j: int| 0 <= j < final(self).waiting_queues@[k as int].1@.len() ==> lex_less(
                old(self).waiting_queues@[k as int].1@[0].start_indices@,
                #[trigger] final(self).waiting_queues@[k as int].1@[j].start_indices@,
            ),
            forall|j: int| 0 <= j < final(self).waiting_queues@[k as int].1@.len() ==> queue_view(old(self).waiting_queues@[k as int].1@).contains(
                #[trigger] final(self).waiting_queues@[k as int].1@[j].start_indices@,
            ) || old(self).in_range_spec(final(self).waiting_queues@[k as int].1@[j].start_indices@, final(self).waiting_queues@[k as int].0@),
            old(self).waiting_queues@[k as int].1@.len() == 0 ==> final(self).configs() == old(self).configs()
                && final(self).waiting_queues@ == old(self).waiting_queues@,
            old(self).waiting_queues@[k as int].1@.len() > 0 ==> forall|c: ConfigView| #[trigger] final(self).configs().contains(c)
                <==> (old(self).configs().contains(c) || trial_config(
                old(self).automaton(),
                old(self).streams(),
                old(self).waiting_queues@[k as int].0@,
                old(self).waiting_queues@[k as int].1@[0].start_indices@,
                c,
            )),
            forall|x: Seq<usize>| #[trigger] queue_view(old(self).waiting_queues@[k as int].1@).contains(x)
                && x != queue_view(old(self).waiting_queues@[k as int].1@)[0] ==> queue_view(
                final(self).waiting_queues@[k as int].1@,
            ).contains(x),
            old(self).waiting_queues@[k as int].1@.len() > 0 ==> forall|x: Seq<usize>|
                #[trigger] queue_view(final(self).waiting_queues@[k as int].1@).contains(x) <==> ((queue_view(
                    old(self).waiting_queues@[k as int].1@,
                ).contains(x) && x != queue_view(old(self).waiting_queues@[k as int].1@)[0]) || (next_position(
                    queue_view(old(self).waiting_queues@[k as int].1@)[0],
                    x,
                ) && old(self).in_range_spec(x, old(self).waiting_queues@[k as int].0@))),
    {
        let ghost aut = self.automaton();
        let ghost streams = streams_of(self.sequences@);
        let ghost before = *self;
        let mut entry: (Vec<usize>, Vec<StartPosition>) = (Vec::new(), Vec::new());
        std::mem::swap(&mut entry, &mut self.waiting_queues[k]);
        let ghost qv0 = queue_view(entry.1@);
        proof {
            assert(before.queue_ok(k as int));
            assert(entry.0@ == before.waiting_queues@[k as int].0@);
        }
        if entry.1.len() > 0 {
            let p = entry.1.remove(0);
            let ghost pv = p.start_indices@;
            proof {
                assert(queue_view(entry.1@) =~= qv0.drop_first());
                assert(pv == qv0[0]);
                assert forall|j: int| 0 <= j < entry.1@.len() implies (#[trigger] entry.1@[j]).start_indices@.len() == aut.dimensions by {
                    assert(entry.1@[j] == before.waiting_queues@[k as int].1@[j + 1]);
                }
                assert forall|j: int| 0 <= j < queue_view(entry.1@).len() implies lex_less(pv, #[trigger] queue_view(entry.1@)[j]) by {
                    assert(queue_view(entry.1@)[j] == qv0[j + 1]);
                }
                assert forall|x: Seq<usize>| #[trigger] queue_view(entry.1@).contains(x) implies qv0.contains(x) by {
                    let j = choose|j: int| 0 <= j < queue_view(entry.1@).len() && queue_view(entry.1@)[j] == x;
                    assert(qv0[j + 1] == x);
                }
                assert forall|x: Seq<usize>| #[trigger] qv0.contains(x) && x != qv0[0] implies queue_view(entry.1@).contains(x) by {
                    let j = choose|j: int| 0 <= j < qv0.len() && qv0[j] == x;
                    assert(j > 0);
                    assert(queue_view(entry.1@)[j - 1] == x);
                }
                assert forall|x: Seq<usize>| #[trigger] queue_view(entry.1@).contains(x) implies x != qv0[0] by {
                    let j = choose|j: int| 0 <= j < queue_view(entry.1@).len() && queue_view(entry.1@)[j] == x;
                    assert(lex_less(pv, queue_view(entry.1@)[j]));
                    if x == qv0[0] {
                        lemma_lex_irreflexive(pv, 0);
                    }
                }
            }
            if all_below_max(&p) {
                let succs = p.immediate_successors();
                for i in 0..succs.len()
                    invariant
                        sorted_strict(queue_view(entry.1@)),
                        forall|j: int| 0 <= j < entry.1@.len() ==> (#[trigger] entry.1@[j]).start_indices@.len() == aut.dimensions,
                        succs@.len() == pv.len(),
                        forall|m: int| 0 <= m < succs@.len() ==> #[trigger] succs@[m].start_indices@ == pv.update(
                            m,
                            (pv[m] + 1) as usize,
                        ),
                        pv.len() == aut.dimensions,
                        forall|m: int| 0 <= m < pv.len() ==> pv[m] < usize::MAX,
                        entry.0@ == before.waiting_queues@[k as int].0@,
                        entry.0@.len() == aut.dimensions,
                        forall|j: int| 0 <= j < entry.0@.len() ==> #[trigger] entry.0@[j] < self.num_tracks(),
                        self.tracks_ok(),
                        self.eof@ == before.eof@,
                        self.read_size@ == before.read_size@,
                        forall|j: int| 0 <= j < queue_view(entry.1@).len() ==> lex_less(pv, #[trigger] queue_view(entry.1@)[j]),
                        forall|x: Seq<usize>| #[trigger] queue_view(entry.1@).contains(x) ==> qv0.contains(x) || before.in_range_spec(x, entry.0@),
                        forall|x: Seq<usize>| #[trigger] qv0.contains(x) && x != qv0[0] ==> queue_view(entry.1@).contains(x),
                        forall|x: Seq<usize>| #[trigger] queue_view(entry.1@).contains(x) <==> ((qv0.contains(x) && x != qv0[0])
                            || exists|m: int| 0 <= m < i && succs@[m].start_indices@ == x && before.in_range_spec(x, entry.0@)),
                        qv0.len() > 0,
                        pv == qv0[0],
                {
                    if self.in_range(&succs[i], &entry.0) {
                        let ghost before_q = queue_view(entry.1@);
                        let s = copy_start_position(&succs[i]);
                        let ghost sv = s.start_indices@;
                        proof {
                            lemma_lex_increment(pv, i as int);
                            assert(before.in_range_spec(sv, entry.0@));
                        }
                        insert_position(&mut entry.1, s);
                        proof {
                            assert forall|x: Seq<usize>| #[trigger] queue_view(entry.1@).contains(x) <==> ((qv0.contains(x) && x != qv0[0])
                                || exists|m: int| 0 <= m < i + 1 && succs@[m].start_indices@ == x && before.in_range_spec(x, entry.0@)) by {
                                if x == sv {
                                    assert(succs@[i as int].start_indices@ == x);
                                }
                            }
                            assert forall|j: int| 0 <= j < entry.1@.len() implies (#[trigger] entry.1@[j]).start_indices@.len() == aut.dimensions by {
                                assert(queue_view(entry.1@)[j] == entry.1@[j].start_indices@);
                                assert(queue_view(entry.1@).contains(queue_view(entry.1@)[j]));
                                if before_q.contains(queue_view(entry.1@)[j]) {
                                    let m = choose|m: int| 0 <= m < before_q.len() && before_q[m] == queue_view(entry.1@)[j];
                                }
                            }
                            assert forall|j: int| 0 <= j < queue_view(entry.1@).len() implies lex_less(pv, #[trigger] queue_view(entry.1@)[j]) by {
                                assert(queue_view(entry.1@).contains(queue_view(entry.1@)[j]));
                                if before_q.contains(queue_view(entry.1@)[j]) {
                                    let m = choose|m: int| 0 <= m < before_q.len() && before_q[m] == queue_view(entry.1@)[j];
                                }
                            }
                        }
                    } else {
                        proof {
                            assert(!before.in_range_spec(succs@[i as int].start_indices@, entry.0@));
                            assert forall|x: Seq<usize>| #[trigger] queue_view(entry.1@).contains(x) <==> ((qv0.contains(x) && x != qv0[0])
                                || exists|m: int| 0 <= m < i + 1 && succs@[m].start_indices@ == x && before.in_range_spec(x, entry.0@)) by {
                            }
                        }
                    }
                }
                proof {
                    assert forall|x: Seq<usize>| #[trigger] queue_view(entry.1@).contains(x) <==> ((qv0.contains(x) && x != qv0[0])
                        || (next_position(pv, x) && before.in_range_spec(x, entry.0@))) by {
                        if exists|m: int| 0 <= m < succs@.len() && succs@[m].start_indices@ == x && before.in_range_spec(x, entry.0@) {
                            let m = choose|m: int| 0 <= m < succs@.len() && succs@[m].start_indices@ == x && before.in_range_spec(x, entry.0@);
                            assert(x == pv.update(m, (pv[m] + 1) as usize));
                        }
                        if next_position(pv, x) && before.in_range_spec(x, entry.0@) {
                            let m = choose|m: int| 0 <= m < pv.len() && x == #[trigger] pv.update(m, (pv[m] + 1) as usize);
                            assert(succs@[m].start_indices@ == x);
                        }
                    }
                }
            } else {
                proof {
                    assert forall|x: Seq<usize>| #[trigger] queue_view(entry.1@).contains(x) <==> ((qv0.contains(x) && x != qv0[0])
                        || (next_position(pv, x) && before.in_range_spec(x, entry.0@))) by {
                        if next_position(pv, x) {
                            assert(forall|m: int| 0 <= m < p.start_indices@.len() ==> #[trigger] p.start_indices@[m] < usize::MAX);
                        }
                    }
                }
            }
            let ghost qafter = queue_view(entry.1@);
            let mut views: Vec<ReadableView> = Vec::new();
            for i in 0..entry.0.len()
                invariant
                    views@.len() == i,
                    entry.0@.len() == aut.dimensions,
                    pv.len() == aut.dimensions,
                    p.start_indices@ == pv,
                    forall|j: int| 0 <= j < entry.0@.len() ==> #[trigger] entry.0@[j] < self.sequences@.len(),
                    streams == streams_of(self.sequences@),
                    forall|j: int| 0 <= j < i ==> (#[trigger] views@[j]).start <= streams[entry.0@[j] as int].len(),
                    forall|j: int| 0 <= j < i ==> (#[trigger] views@[j]).start == trial_starts(streams, entry.0@, pv)[j],
            {
                let len = self.sequences[entry.0[i]].len();
                let pos = p.start_indices[i];
                let start = if pos < len {
                    pos
                } else {
                    len
                };
                views.push(ReadableView { start });
            }
            let ghost old_cfgs = self.automata_runner.configs();
            proof {
                assert(starts_of(views@) =~= trial_starts(streams, entry.0@, pv));
            }
            self.automata_runner.insert_from_initial_states(views, copy_positions(&entry.0));
            proof {
                assert forall|j: int| 0 <= j < self.automata_runner.configs().len() implies config_valid(aut, streams, #[trigger] self.automata_runner.configs()[j]) by {
                    let c = self.automata_runner.configs()[j];
                    assert(self.automata_runner.configs().contains(c));
                    if !old_cfgs.contains(c) {
                        let i = choose|i: int| 0 <= i < aut.initial_states@.len() && c == (
                            #[trigger] aut.initial_states@[i],
                            starts_of(views@),
                            starts_of(views@),
                            entry.0@,
                        );
                        assert(aut.initial_states@[i] < aut.num_states());
                        assert forall|m: int| 0 <= m < c.1.len() implies #[trigger] c.3[m] < streams.len() && c.1[m] <= streams[c.3[m] as int].len() by {
                            assert(views@[m].start <= streams[entry.0@[m] as int].len());
                        }
                    } else {
                        let m = choose|m: int| 0 <= m < old_cfgs.len() && old_cfgs[m] == c;
                    }
                }
                assert forall|j: int| 0 <= j < entry.1@.len() implies lex_less(pv, #[trigger] entry.1@[j].start_indices@) by {
                    assert(queue_view(entry.1@)[j] == entry.1@[j].start_indices@);
                }
                assert forall|j: int| 0 <= j < entry.1@.len() implies qv0.contains(#[trigger] entry.1@[j].start_indices@)
                    || before.in_range_spec(entry.1@[j].start_indices@, entry.0@) by {
                    assert(queue_view(entry.1@)[j] == entry.1@[j].start_indices@);
                    assert(queue_view(entry.1@).contains(queue_view(entry.1@)[j]));
                }
            }
        }
        std::mem::swap(&mut entry, &mut self.waiting_queues[k]);
        proof {
            assert forall|m: int| 0 <= m < self.waiting_queues@.len() implies #[trigger] self.queue_ok(m) by {
                if m != k {
                    assert(before.queue_ok(m));
                    assert(self.waiting_queues@[m] == before.waiting_queues@[m]);
                }
            }
        }
    }

    /// Starts a matching for every tuple of streams that has none running:
    /// from the smallest start position waiting for it, which leaves the
    /// queue together with those of its successors that come after it.
    fn start_new_trials(&mut self)
        requires
            old(self).wf(),
        ensures
            final(self).wf(),
            final(self).automaton() == old(self).automaton(),
            final(self).sequences@ == old(self).sequences@,
            final(self).read_size@ == old(self).read_size@,
            final(self).eof@ == old(self).eof@,
            final(self).reported() == old(self).reported(),
            final(self).waiting_queues@.len() == old(self).waiting_queues@.len(),
            forall|k: int| 0 <= k < old(self).waiting_queues@.len() ==> (#[trigger] final(self).waiting_queues@[k]).0@
                == old(self).waiting_queues@[k].0@,
            forall|k: int|
                0 <= k < old(self).waiting_queues@.len() && (running(old(self).configs(), old(self).waiting_queues@[k].0@)
                    || old(self).waiting_queues@[k].1@.len() == 0) ==> #[trigger] final(self).waiting_queues@[k]
                    == old(self).waiting_queues@[k],
            forall|c: ConfigView| #[trigger] old(self).configs().contains(c) ==> final(self).configs().contains(c),
            forall|c: ConfigView| #[trigger] final(self).configs().contains(c) ==> old(self).configs().contains(c) || exists|k: int|
                0 <= k < old(self).waiting_queues@.len() && !running(old(self).configs(), old(self).waiting_queues@[k].0@)
                    && old(self).waiting_queues@[k].1@.len() > 0 && #[trigger] trial_config(
                    old(self).automaton(),
                    old(self).streams(),
                    old(self).waiting_queues@[k].0@,
                    old(self).waiting_queues@[k].1@[0].start_indices@,
                    c,
                ),
            tuples_distinct(old(self).waiting_queues@) ==> forall|k: int, c: ConfigView|
                0 <= k < old(self).waiting_queues@.len() && !running(old(self).configs(), old(self).waiting_queues@[k].0@)
                    && old(self).waiting_queues@[k].1@.len() > 0 && #[trigger] trial_config(
                    old(self).automaton(),
                    old(self).streams(),
                    old(self).waiting_queues@[k].0@,
                    old(self).waiting_queues@[k].1@[0].start_indices@,
                    c,
                ) ==> final(self).configs().contains(c),
            tuples_distinct(old(self).waiting_queues@) ==> forall|k: int, j: int|
                0 <= k < old(self).waiting_queues@.len() && !running(old(self).configs(), old(self).waiting_queues@[k].0@)
                    && old(self).waiting_queues@[k].1@.len() > 0 && 0 <= j < final(self).waiting_queues@[k].1@.len()
                    ==> lex_less(
                    old(self).waiting_queues@[k].1@[0].start_indices@,
                    #[trigger] final(self).waiting_queues@[k].1@[j].start_indices@,
                ),
            tuples_distinct(old(self).waiting_queues@) ==> forall|k: int, x: Seq<usize>|
                0 <= k < old(self).waiting_queues@.len() && !running(old(self).configs(), old(self).waiting_queues@[k].0@)
                    && old(self).waiting_queues@[k].1@.len() > 0 ==> (#[trigger] queue_view(final(self).waiting_queues@[k].1@).contains(x)
                    <==> ((queue_view(old(self).waiting_queues@[k].1@).contains(x) && x != queue_view(old(self).waiting_queues@[k].1@)[0])
                    || (next_position(queue_view(old(self).waiting_queues@[k].1@)[0], x) && old(self).in_range_spec(
                    x,
                    old(self).waiting_queues@[k].0@,
                )))),
    {
        let ghost before = *self;
        let ghost aut = self.automaton();
        let ghost streams = self.streams();
        let ghost cs0 = self.configs();
        let ghost wq0 = self.waiting_queues@;
        let n = self.waiting_queues.len();
        for k in 0..n
            invariant
                self.wf(),
                n == self.waiting_queues@.len(),
                n == wq0.len(),
                wq0 == before.waiting_queues@,
                cs0 == before.configs(),
                aut == before.automaton(),
                streams == before.streams(),
                self.automaton() == before.automaton(),
                self.sequences@ == before.sequences@,
                self.read_size@ == before.read_size@,
                self.eof@ == before.eof@,
                self.reported() == before.reported(),
                forall|m: int| 0 <= m < n ==> (#[trigger] self.waiting_queues@[m]).0@ == wq0[m].0@,
                forall|m: int| k <= m < n ==> #[trigger] self.waiting_queues@[m] == wq0[m],
                forall|m: int| 0 <= m < k && (running(cs0, wq0[m].0@) || wq0[m].1@.len() == 0)
                    ==> #[trigger] self.waiting_queues@[m] == wq0[m],
                forall|c: ConfigView| #[trigger] cs0.contains(c) ==> self.configs().contains(c),
                forall|c: ConfigView| #[trigger] self.configs().contains(c) ==> cs0.contains(c) || exists|m: int|
                    0 <= m < k && !running(cs0, wq0[m].0@) && wq0[m].1@.len() > 0 && #[trigger] trial_config(
                        aut, streams, wq0[m].0@, wq0[m].1@[0].start_indices@, c),
                tuples_distinct(wq0) ==> forall|m: int, c: ConfigView|
                    0 <= m < k && !running(cs0, wq0[m].0@) && wq0[m].1@.len() > 0 && #[trigger] trial_config(
                        aut, streams, wq0[m].0@, wq0[m].1@[0].start_indices@, c) ==> self.configs().contains(c),
                tuples_distinct(wq0) ==> forall|m: int, j: int|
                    0 <= m < k && !running(cs0, wq0[m].0@) && wq0[m].1@.len() > 0 && 0 <= j < self.waiting_queues@[m].1@.len()
                        ==> lex_less(wq0[m].1@[0].start_indices@, #[trigger] self.waiting_queues@[m].1@[j].start_indices@),
                tuples_distinct(wq0) ==> forall|m: int, x: Seq<usize>|
                    0 <= m < k && !running(cs0, wq0[m].0@) && wq0[m].1@.len() > 0 ==> (#[trigger] queue_view(self.waiting_queues@[m].1@).contains(x)
                        <==> ((queue_view(wq0[m].1@).contains(x) && x != queue_view(wq0[m].1@)[0])
                        || (next_position(queue_view(wq0[m].1@)[0], x) && before.in_range_spec(x, wq0[m].0@)))),
        {
            let ghost cur = *self;
            let found = self.automata_runner.has_ids(&self.waiting_queues[k].0);
            proof {
                assert(cur.waiting_queues@[k as int] == wq0[k as int]);
                assert(running(cs0, wq0[k as int].0@) ==> found) by {
                    if running(cs0, wq0[k as int].0@) {
                        let j = choose|j: int| 0 <= j < cs0.len() && (#[trigger] cs0[j]).3 == wq0[k as int].0@;
                        assert(cs0.contains(cs0[j]));
                        assert(cur.configs().contains(cs0[j]));
                        let j2 = choose|j2: int| 0 <= j2 < cur.configs().len() && cur.configs()[j2] == cs0[j];
                        assert(cur.configs()[j2].3 == wq0[k as int].0@);
                    }
                }
                if found && tuples_distinct(wq0) && !running(cs0, wq0[k as int].0@) {
                    let j = choose|j: int| 0 <= j < cur.configs().len() && (#[trigger] cur.configs()[j]).3 == wq0[k as int].0@;
                    let x = cur.configs()[j];
                    assert(cur.configs().contains(x));
                    if cs0.contains(x) {
                        let j0 = choose|j0: int| 0 <= j0 < cs0.len() && cs0[j0] == x;
                        assert(cs0[j0].3 == wq0[k as int].0@);
                    } else {
                        let m = choose|m: int| 0 <= m < k && !running(cs0, wq0[m].0@) && wq0[m].1@.len() > 0 && #[trigger] trial_config(
                            aut, streams, wq0[m].0@, wq0[m].1@[0].start_indices@, x);
                        assert(x.3 == wq0[m].0@);
                        assert(wq0[m].0@ != wq0[k as int].0@);
                    }
                }
            }
            if !found {
                self.start_trial(k);
            }
            proof {
                assert forall|m: int| 0 <= m < n implies (#[trigger] self.waiting_queues@[m]).0@ == wq0[m].0@ by {
                    if m != k {
                        assert(self.waiting_queues@[m] == cur.waiting_queues@[m]);
                    }
                }
                assert forall|m: int| k + 1 <= m < n implies #[trigger] self.waiting_queues@[m] == wq0[m] by {
                    assert(self.waiting_queues@[m] == cur.waiting_queues@[m]);
                }
                assert forall|m: int| 0 <= m < k + 1 && (running(cs0, wq0[m].0@) || wq0[m].1@.len() == 0)
                    implies #[trigger] self.waiting_queues@[m] == wq0[m] by {
                    if m != k {
                        assert(self.waiting_queues@[m] == cur.waiting_queues@[m]);
                    }
                }
                assert forall|c: ConfigView| #[trigger] cs0.contains(c) implies self.configs().contains(c) by {
                    assert(cur.configs().contains(c));
                }
                assert forall|c: ConfigView| #[trigger] self.configs().contains(c) implies cs0.contains(c) || exists|m: int|
                    0 <= m < k + 1 && !running(cs0, wq0[m].0@) && wq0[m].1@.len() > 0 && #[trigger] trial_config(
                        aut, streams, wq0[m].0@, wq0[m].1@[0].start_indices@, c) by {
                    if !cur.configs().contains(c) {
                        assert(trial_config(aut, streams, wq0[k as int].0@, wq0[k as int].1@[0].start_indices@, c));
                    }
                }
                if tuples_distinct(wq0) {
                    assert forall|m: int, c: ConfigView|
                        0 <= m < k + 1 && !running(cs0, wq0[m].0@) && wq0[m].1@.len() > 0 && #[trigger] trial_config(
                            aut, streams, wq0[m].0@, wq0[m].1@[0].start_indices@, c) implies self.configs().contains(c) by {
                        if m < k {
                            assert(cur.configs().contains(c));
                        }
                    }
                    assert forall|m: int, x: Seq<usize>|
                        0 <= m < k + 1 && !running(cs0, wq0[m].0@) && wq0[m].1@.len() > 0 implies (#[trigger] queue_view(self.waiting_queues@[m].1@).contains(x)
                            <==> ((queue_view(wq0[m].1@).contains(x) && x != queue_view(wq0[m].1@)[0])
                            || (next_position(queue_view(wq0[m].1@)[0], x) && before.in_range_spec(x, wq0[m].0@)))) by {
                        if m < k {
                            assert(self.waiting_queues@[m] == cur.waiting_queues@[m]);
                        } else {
                            assert(!found);
                            assert(cur.in_range_spec(x, wq0[m].0@) == before.in_range_spec(x, wq0[m].0@));
                        }
                    }
                    assert forall|m: int, j: int|
                        0 <= m < k + 1 && !running(cs0, wq0[m].0@) && wq0[m].1@.len() > 0 && 0 <= j < self.waiting_queues@[m].1@.len()
                            implies lex_less(wq0[m].1@[0].start_indices@, #[trigger] self.waiting_queues@[m].1@[j].start_indices@) by {
                        if m < k {
                            assert(self.waiting_queues@[m] == cur.waiting_queues@[m]);
                        }
                    }
                }
            }
        }
    }

    /// Appends `action` to the stream `track`, runs every configuration as
    /// far as the streams go, reports the configurations at a final state,
    /// drops those that no longer wait for input, and starts a new matching
    /// for each tuple of streams left without one.
    pub fn feed(&mut self, action: &str, track: usize)
        requires
            old(self).wf(),
            track < old(self).num_tracks(),
        ensures
            final(self).wf(),
            final(self).automaton() == old(self).automaton(),
            final(self).num_tracks() == old(self).num_tracks(),
            forall|t: int| #[trigger] final(self).is_eof(t) == old(self).is_eof(t),
            final(self).streams() == old(self).streams().update(track as int, old(self).streams()[track as int].push(action@)),
            old(self).reported().len() <= final(self).reported().len(),
            final(self).reported().subrange(0, old(self).reported().len() as int) == old(self).reported(),
            forall|e: MatchingReport| #[trigger] final(self).reported().subrange(
                old(self).reported().len() as int,
                final(self).reported().len() as int,
            ).contains(e) ==> exists|c: ConfigView|
                derivable(final(self).automaton(), final(self).streams(), old(self).configs(), c)
                    && final(self).automaton().final_at(c.0 as int) && e == #[trigger] report_of(c),
            forall|c: ConfigView|
                derivable(final(self).automaton(), final(self).streams(), old(self).configs(), c)
                    && final(self).automaton().final_at(c.0 as int) ==> #[trigger] final(self).reported().subrange(
                    old(self).reported().len() as int,
                    final(self).reported().len() as int,
                ).contains(report_of(c)),
            exists|cs: Seq<ConfigView>|
                distinct(cs) && (forall|c: ConfigView| #[trigger] cs.contains(c) <==> derivable(
                    final(self).automaton(),
                    final(self).streams(),
                    old(self).configs(),
                    c,
                )) && #[trigger] final(self).reported() == old(self).reported() + reports_of(keep_final(final(self).automaton(), cs)),
            final(self).num_tuples() == old(self).num_tuples(),
            forall|k: int| 0 <= k < old(self).num_tuples() ==> #[trigger] final(self).tuple(k) == old(self).tuple(k),
            forall|c: ConfigView| #[trigger] final(self).configs().contains(c) <==> ((derivable(
                final(self).automaton(),
                final(self).streams(),
                old(self).configs(),
                c,
            ) && final(self).waits(c)) || exists|k: int|
                0 <= k < old(self).num_tuples() && !final(self).kept_runs(*old(self), k) && old(self).queue_of(k).len() > 0
                    && #[trigger] trial_config(final(self).automaton(), final(self).streams(), old(self).tuple(k), old(self).queue_of(k)[0], c)),
            forall|k: int|
                0 <= k < old(self).num_tuples() && (final(self).kept_runs(*old(self), k) || old(self).queue_of(k).len() == 0)
                    ==> #[trigger] final(self).queue_of(k) == old(self).queue_of(k),
            forall|k: int, j: int|
                0 <= k < old(self).num_tuples() && !final(self).kept_runs(*old(self), k) && old(self).queue_of(k).len() > 0
                    && 0 <= j < final(self).queue_of(k).len() ==> lex_less(old(self).queue_of(k)[0], #[trigger] final(self).queue_of(k)[j]),
            forall|k: int, x: Seq<usize>|
                0 <= k < old(self).num_tuples() && !final(self).kept_runs(*old(self), k) && old(self).queue_of(k).len() > 0
                    ==> (#[trigger] final(self).queue_of(k).contains(x) <==> ((old(self).queue_of(k).contains(x) && x != old(self).queue_of(
                    k,
                )[0]) || (next_position(old(self).queue_of(k)[0], x) && final(self).in_range_spec(x, old(self).tuple(k))))),
    {
        let ghost aut = self.automaton();
        let ghost old_streams = streams_of(self.sequences@);
        let ghost old_configs = self.configs();
        let ghost before = *self;
        let mut s = AppendOnlySequence::new();
        std::mem::swap(&mut s, &mut self.sequences[track]);
        let ghost old_items = s.items_deep();
        s.append(action.to_owned());
        proof {
            assert(s.items_deep() =~= old_items.push(action@));
            s.lemma_len_bound();
        }
        std::mem::swap(&mut s, &mut self.sequences[track]);
        let ghost streams = streams_of(self.sequences@);
        proof {
            assert(streams =~= old_streams.update(track as int, old_streams[track as int].push(action@)));
            assert(self.sequences@[track as int].items().len() == self.sequences@[track as int].items_deep().len());
            assert(before.sequences@[track as int].items().len() == old_streams[track as int].len());
        }
        let rs = self.read_size[track];
        self.read_size.set(track, rs + 1);
        proof {
            assert forall|j: int| 0 <= j < self.automata_runner.configs().len() implies config_valid(aut, streams, #[trigger] self.automata_runner.configs()[j]) by {
                assert(config_valid(aut, old_streams, self.automata_runner.configs()[j]));
                assert forall|i: int| 0 <= i < old_streams.len() implies #[trigger] old_streams[i].len() <= streams[i].len() by {}
                lemma_valid_extend(aut, old_streams, streams, self.automata_runner.configs()[j]);
            }
            assert forall|t: int| 0 <= t < self.sequences@.len() implies #[trigger] self.read_size@[t] <= self.sequences@[t].items().len() by {
                if t != track {
                    assert(self.sequences@[t] == before.sequences@[t]);
                }
                assert(self.sequences@[t].items().len() == streams[t].len());
                assert(before.sequences@[t].items().len() == old_streams[t].len());
            }
            assert forall|t: int| 0 <= t < self.sequences@.len() && #[trigger] self.eof@[t] implies self.sequences@[t].is_closed_spec() by {
                if t != track {
                    assert(self.sequences@[t] == before.sequences@[t]);
                }
            }
            assert forall|m: int| 0 <= m < self.waiting_queues@.len() implies #[trigger] self.queue_ok(m) by {
                assert(before.queue_ok(m));
            }
        }
        self.automata_runner.consume(&self.sequences);
        let ghost c1 = self.configs();
        proof {
            assert forall|i: int, j: int| 0 <= i < c1.len() && 0 <= j < c1.len() && i != j implies c1[i] != c1[j] by {
                if i < j {
                    assert(self.automata_runner.configs()[i] != self.automata_runner.configs()[j]);
                } else {
                    assert(self.automata_runner.configs()[j] != self.automata_runner.configs()[i]);
                }
            }
            assert forall|m: int| 0 <= m < self.waiting_queues@.len() implies #[trigger] self.queue_ok(m) by {
                assert(before.queue_ok(m));
            }
        }
        self.report_finals();
        let ghost after_report = self.reported();
        proof {
            assert forall|j: int| 0 <= j < self.automata_runner.configs().len() implies
                (#[trigger] self.automata_runner.configs()[j]).1.len() == self.automata_runner.configs()[j].3.len()
                && forall|i: int| 0 <= i < self.automata_runner.configs()[j].3.len() ==> #[trigger] self.automata_runner.configs()[j].3[i] < self.sequences@.len() by {
                assert(config_valid(aut, streams, self.automata_runner.configs()[j]));
            }
        }
        let ghost before_remove = *self;
        proof {
            assert forall|c: ConfigView| #[trigger] c1.contains(c) <==> derivable(aut, streams, old_configs, c) by {
                if derivable(aut, streams, old_configs, c) {
                    let (c0, n0) = choose|c0: ConfigView, n0: nat| old_configs.contains(c0) && #[trigger] crate::hyper_pattern_matching::derives(aut, streams, c0, c, n0);
                    lemma_closed_contains_derived(aut, streams, c1, c0, c, n0);
                }
            }
        }
        self.automata_runner.remove_non_waiting_configurations(&self.sequences);
        let ghost c2 = self.configs();
        proof {
            assert forall|c: ConfigView| #[trigger] c2.contains(c) <==> derivable(aut, streams, old_configs, c) && waiting_view(self.sequences@, c) by {
                lemma_keep_waiting_contains(self.sequences@, c1, c);
            }
        }
        proof {
            crate::hyper_pattern_matching::lemma_keep_waiting_sub(self.sequences@, c1);
            assert forall|j: int| 0 <= j < self.automata_runner.configs().len() implies config_valid(aut, streams, #[trigger] self.automata_runner.configs()[j]) by {
                let x = self.automata_runner.configs()[j];
                assert(self.automata_runner.configs().contains(x));
                let m = choose|m: int| 0 <= m < c1.len() && c1[m] == x;
            }
            assert forall|m: int| 0 <= m < self.waiting_queues@.len() implies #[trigger] self.queue_ok(m) by {
                assert(before_remove.queue_ok(m));
            }
        }
        let ghost pre_trials = *self;
        self.start_new_trials();
        proof {
            assert(pre_trials.waiting_queues@ == before.waiting_queues@);
            assert forall|k: int| 0 <= k < before.num_tuples() implies running(c2, before.waiting_queues@[k].0@) == self.kept_runs(before, k) by {
                if running(c2, before.waiting_queues@[k].0@) {
                    let j = choose|j: int| 0 <= j < c2.len() && (#[trigger] c2[j]).3 == before.waiting_queues@[k].0@;
                    assert(c2.contains(c2[j]));
                    assert(self.waits(c2[j]));
                }
                if self.kept_runs(before, k) {
                    let c = choose|c: ConfigView| derivable(self.automaton(), self.streams(), before.configs(), c) && #[trigger] self.waits(c) && c.3
                        == before.tuple(k);
                    assert(c2.contains(c));
                    let j = choose|j: int| 0 <= j < c2.len() && c2[j] == c;
                    assert(c2[j].3 == before.waiting_queues@[k].0@);
                }
            }
            assert forall|k: int| 0 <= k < before.num_tuples() && before.waiting_queues@[k].1@.len() > 0 implies
                #[trigger] before.queue_of(k)[0] == before.waiting_queues@[k].1@[0].start_indices@ by {}
            assert forall|k: int| 0 <= k < before.num_tuples() implies #[trigger] before.queue_of(k).len() == before.waiting_queues@[k].1@.len() by {}
            assert forall|c: ConfigView| #[trigger] self.configs().contains(c) <==> ((derivable(aut, streams, before.configs(), c)
                && self.waits(c)) || exists|k: int|
                0 <= k < before.num_tuples() && !self.kept_runs(before, k) && before.queue_of(k).len() > 0
                    && #[trigger] trial_config(aut, streams, before.tuple(k), before.queue_of(k)[0], c)) by {
                assert(tuples_distinct(pre_trials.waiting_queues@));
                assert(pre_trials.automaton() == aut && pre_trials.streams() == streams && pre_trials.configs() == c2);
                assert(self.waits(c) == waiting_view(pre_trials.sequences@, c));
                if derivable(aut, streams, before.configs(), c) && self.waits(c) {
                    assert(c2.contains(c));
                }
                if self.configs().contains(c) && c2.contains(c) {
                    assert(derivable(aut, streams, before.configs(), c) && self.waits(c));
                }
                if self.configs().contains(c) && !c2.contains(c) {
                    let k = choose|k: int|
                        0 <= k < pre_trials.waiting_queues@.len() && !running(c2, pre_trials.waiting_queues@[k].0@)
                            && pre_trials.waiting_queues@[k].1@.len() > 0 && #[trigger] trial_config(
                            aut, streams, pre_trials.waiting_queues@[k].0@, pre_trials.waiting_queues@[k].1@[0].start_indices@, c);
                    assert(before.queue_of(k).len() > 0);
                    assert(running(c2, before.waiting_queues@[k].0@) == self.kept_runs(before, k));
                    assert(!self.kept_runs(before, k));
                    assert(before.queue_of(k)[0] == before.waiting_queues@[k].1@[0].start_indices@);
                    assert(trial_config(aut, streams, before.tuple(k), before.queue_of(k)[0], c));
                }
                if exists|k: int|
                    0 <= k < before.num_tuples() && !self.kept_runs(before, k) && before.queue_of(k).len() > 0
                        && #[trigger] trial_config(aut, streams, before.tuple(k), before.queue_of(k)[0], c) {
                    let k = choose|k: int|
                        0 <= k < before.num_tuples() && !self.kept_runs(before, k) && before.queue_of(k).len() > 0
                            && #[trigger] trial_config(aut, streams, before.tuple(k), before.queue_of(k)[0], c);
                    assert(running(c2, before.waiting_queues@[k].0@) == self.kept_runs(before, k));
                    assert(before.queue_of(k)[0] == before.waiting_queues@[k].1@[0].start_indices@);
                    assert(trial_config(aut, streams, pre_trials.waiting_queues@[k].0@, pre_trials.waiting_queues@[k].1@[0].start_indices@, c));
                    assert(!running(c2, pre_trials.waiting_queues@[k].0@));
                    assert(pre_trials.waiting_queues@[k].1@.len() > 0);
                    assert(self.configs().contains(c));
                }
            }
            assert forall|k: int| 0 <= k < before.num_tuples() && (self.kept_runs(before, k) || before.queue_of(k).len() == 0)
                implies #[trigger] self.queue_of(k) == before.queue_of(k) by {
                assert(self.waiting_queues@[k] == before.waiting_queues@[k]);
            }
            assert forall|k: int, j: int| 0 <= k < before.num_tuples() && !self.kept_runs(before, k) && before.queue_of(k).len() > 0
                && 0 <= j < self.queue_of(k).len() implies lex_less(before.queue_of(k)[0], #[trigger] self.queue_of(k)[j]) by {
                assert(self.queue_of(k)[j] == self.waiting_queues@[k].1@[j].start_indices@);
            }
            assert forall|k: int, x: Seq<usize>| 0 <= k < before.num_tuples() && !self.kept_runs(before, k) && before.queue_of(k).len() > 0
                implies (#[trigger] self.queue_of(k).contains(x) <==> ((before.queue_of(k).contains(x) && x != before.queue_of(k)[0])
                || (next_position(before.queue_of(k)[0], x) && self.in_range_spec(x, before.tuple(k))))) by {
                assert(running(c2, before.waiting_queues@[k].0@) == self.kept_runs(before, k));
                assert(pre_trials.in_range_spec(x, before.tuple(k)) == self.in_range_spec(x, before.tuple(k)));
            }
            let new_part = self.reported().subrange(before.reported().len() as int, self.reported().len() as int);
            assert(self.eof@ == before.eof@);
            assert forall|t: int| #[trigger] self.is_eof(t) == before.is_eof(t) by {}
            assert(new_part =~= reports_of(keep_final(aut, c1)));
            assert(distinct(c1));
            assert(self.reported() =~= before.reported() + reports_of(keep_final(aut, c1)));
            assert(self.reported().subrange(0, before.reported().len() as int) =~= before.reported());
            assert forall|e: MatchingReport| #[trigger] new_part.contains(e) implies exists|c: ConfigView|
                derivable(aut, streams, old_configs, c) && aut.final_at(c.0 as int) && e == #[trigger] report_of(c) by {
                let m = choose|m: int| 0 <= m < new_part.len() && new_part[m] == e;
                let x = keep_final(aut, c1)[m];
                assert(keep_final(aut, c1).contains(x));
                lemma_keep_final_contains(aut, c1, x);
                assert(e == report_of(x));
            }
            assert forall|c: ConfigView| derivable(aut, streams, old_configs, c) && aut.final_at(c.0 as int)
                implies #[trigger] new_part.contains(report_of(c)) by {
                let (c0, n0) = choose|c0: ConfigView, n0: nat| old_configs.contains(c0) && #[trigger] crate::hyper_pattern_matching::derives(aut, streams, c0, c, n0);
                assert(c1.contains(c0));
                lemma_closed_contains_derived(aut, streams, c1, c0, c, n0);
                lemma_keep_final_contains(aut, c1, c);
                let m = choose|m: int| 0 <= m < keep_final(aut, c1).len() && keep_final(aut, c1)[m] == c;
                assert(new_part[m] == report_of(c));
            }
        }
    }

    /// Marks the stream `track` as ended.
    pub fn set_eof(&mut self, track: usize)
        requires
            old(self).wf(),
            track < old(self).num_tracks(),
        ensures
            final(self).wf(),
            final(self).automaton() == old(self).automaton(),
            final(self).num_tracks() == old(self).num_tracks(),
            final(self).streams() == old(self).streams(),
            final(self).reported() == old(self).reported(),
            final(self).is_eof(track as int),
            forall|t: int| t != track ==> #[trigger] final(self).is_eof(t) == old(self).is_eof(t),
    {
        let ghost before = *self;
        let mut s = AppendOnlySequence::new();
        std::mem::swap(&mut s, &mut self.sequences[track]);
        s.close();
        std::mem::swap(&mut s, &mut self.sequences[track]);
        self.eof.set(track, true);
        proof {
            assert(streams_of(self.sequences@) =~= streams_of(before.sequences@));
            assert forall|t: int| 0 <= t < self.sequences@.len() implies #[trigger] self.read_size@[t] <= self.sequences@[t].items().len() by {
                if t != track {
                    assert(self.sequences@[t] == before.sequences@[t]);
                }
            }
            assert forall|t: int| 0 <= t < self.sequences@.len() && #[trigger] self.eof@[t] implies self.sequences@[t].is_closed_spec() by {
                if t != track {
                    assert(self.sequences@[t] == before.sequences@[t]);
                }
            }
            assert forall|m: int| 0 <= m < self.waiting_queues@.len() implies #[trigger] self.queue_ok(m) by {
                assert(before.queue_ok(m));
            }
        }
    }
}


/// The larger of two numbers.
pub open spec fn max_nat(a: nat, b: nat) -> nat {
    if a >= b {
        a
    } else {
        b
    }
}

/// The largest entry of a list, 0 for the empty list.
pub open spec fn seq_max(s: Seq<usize>) -> nat
    decreases s.len(),
{
    if s.len() == 0 {
        0
    } else {
        max_nat(seq_max(s.drop_last()), s.last() as nat)
    }
}

pub proof fn lemma_seq_max(s: Seq<usize>, i: int)
    requires
        0 <= i < s.len(),
    ensures
        s[i] <= seq_max(s),
    decreases s.len(),
{
    if i < s.len() - 1 {
        lemma_seq_max(s.drop_last(), i);
    }
}

/// The largest index of the start positions of a queue.
pub open spec fn queue_max(q: Seq<StartPosition>) -> nat
    decreases q.len(),
{
    if q.len() == 0 {
        0
    } else {
        max_nat(queue_max(q.drop_last()), seq_max(q.last().start_indices@))
    }
}

pub proof fn lemma_queue_max(q: Seq<StartPosition>, j: int, i: int)
    requires
        0 <= j < q.len(),
        0 <= i < q[j].start_indices@.len(),
    ensures
        q[j].start_indices@[i] <= queue_max(q),
    decreases q.len(),
{
    if j < q.len() - 1 {
        lemma_queue_max(q.drop_last(), j, i);
    } else {
        lemma_seq_max(q[j].start_indices@, i);
    }
}

/// The largest index of the start positions of all the queues.
pub open spec fn queues_max(qs: Seq<(Vec<usize>, Vec<StartPosition>)>) -> nat
    decreases qs.len(),
{
    if qs.len() == 0 {
        0
    } else {
        max_nat(queues_max(qs.drop_last()), queue_max(qs.last().1@))
    }
}

pub proof fn lemma_queues_max(qs: Seq<(Vec<usize>, Vec<StartPosition>)>, k: int, j: int, i: int)
    requires
        0 <= k < qs.len(),
        0 <= j < qs[k].1@.len(),
        0 <= i < qs[k].1@[j].start_indices@.len(),
    ensures
        qs[k].1@[j].start_indices@[i] <= queues_max(qs),
    decreases qs.len(),
{
    if k < qs.len() - 1 {
        lemma_queues_max(qs.drop_last(), k, j, i);
    } else {
        lemma_queue_max(qs[k].1@, j, i);
    }
}

/// Every index in the queues is below `b`.
pub open spec fn entries_below(qs: Seq<(Vec<usize>, Vec<StartPosition>)>, b: nat) -> bool {
    forall|k: int, j: int, i: int|
        0 <= k < qs.len() && 0 <= j < qs[k].1@.len() && 0 <= i < qs[k].1@[j].start_indices@.len()
            ==> #[trigger] qs[k].1@[j].start_indices@[i] < b
}

/// How far the smallest start position of a queue is from the end of the
/// box of positions with `d` indices below `b`; 0 for an empty queue.
pub open spec fn queue_measure(q: Seq<StartPosition>, b: nat, d: nat) -> nat {
    if q.len() == 0 {
        0
    } else {
        (power(b, d) - rank_from(q[0].start_indices@, 0, b)) as nat
    }
}

/// The sum of the measures of the queues.
pub open spec fn total_measure(qs: Seq<(Vec<usize>, Vec<StartPosition>)>, b: nat, d: nat) -> nat
    decreases qs.len(),
{
    if qs.len() == 0 {
        0
    } else {
        total_measure(qs.drop_last(), b, d) + queue_measure(qs.last().1@, b, d)
    }
}

pub proof fn lemma_total_update(
    qs: Seq<(Vec<usize>, Vec<StartPosition>)>,
    k: int,
    x: (Vec<usize>, Vec<StartPosition>),
    b: nat,
    d: nat,
)
    requires
        0 <= k < qs.len(),
    ensures
        total_measure(qs.update(k, x), b, d) + queue_measure(qs[k].1@, b, d) == total_measure(qs, b, d)
            + queue_measure(x.1@, b, d),
    decreases qs.len(),
{
    let u = qs.update(k, x);
    if k == qs.len() - 1 {
        assert(u.drop_last() =~= qs.drop_last());
    } else {
        assert(u.drop_last() =~= qs.drop_last().update(k, x));
        lemma_total_update(qs.drop_last(), k, x, b, d);
    }
}

impl<'a, Notifier: ResultNotifier> NaiveHyperPatternMatching<'a, Notifier> {
    /// Every waiting queue is empty.
    pub closed spec fn queues_empty(&self) -> bool {
        forall|k: int| 0 <= k < self.waiting_queues@.len() ==> (#[trigger] self.waiting_queues@[k]).1@.len() == 0
    }

    /// Whether some start position is waiting.
    fn any_waiting(&self) -> (r: bool)
        ensures
            r == exists|k: int| 0 <= k < self.waiting_queues@.len() && (#[trigger] self.waiting_queues@[k]).1@.len() > 0,
    {
        for k in 0..self.waiting_queues.len()
            invariant
                forall|m: int| 0 <= m < k ==> (#[trigger] self.waiting_queues@[m]).1@.len() == 0,
        {
            if self.waiting_queues[k].1.len() > 0 {
                return true;
            }
        }
        false
    }

    /// Once every stream has ended: runs the current configurations to the
    /// end and reports their matchings, then, round after round, drops every
    /// configuration, starts one trial from the smallest waiting start
    /// position of each tuple of streams, and reports the matchings found,
    /// until no start position is left.
    pub fn consume_remaining(&mut self)
        requires
            old(self).wf(),
            forall|t: int| 0 <= t < old(self).num_tracks() ==> #[trigger] old(self).is_eof(t),
        ensures
            final(self).wf(),
            final(self).automaton() == old(self).automaton(),
            final(self).streams() == old(self).streams(),
            final(self).num_tracks() == old(self).num_tracks(),
            forall|t: int| #[trigger] final(self).is_eof(t) == old(self).is_eof(t),
            final(self).queues_empty(),
            old(self).reported().len() <= final(self).reported().len(),
            final(self).reported().subrange(0, old(self).reported().len() as int) == old(self).reported(),
            forall|j: int| old(self).reported().len() <= j < final(self).reported().len() ==> sound_report(
                final(self).automaton(),
                final(self).streams(),
                #[trigger] final(self).reported()[j],
            ),
            forall|c: ConfigView|
                #[trigger] derivable(old(self).automaton(), old(self).streams(), old(self).configs(), c)
                    && old(self).automaton().final_at(c.0 as int) ==> final(self).reported().contains(report_of(c)),
            forall|k: int, p: Seq<usize>, c: ConfigView|
                0 <= k < old(self).num_tuples() && old(self).queue_of(k).contains(p)
                    && #[trigger] trial_derivable(old(self).automaton(), old(self).streams(), old(self).tuple(k), p, c)
                    && old(self).automaton().final_at(c.0 as int) ==> final(self).reported().contains(report_of(c)),
            forall|k: int, path: Seq<Seq<usize>>, c: ConfigView|
                #[trigger] old(self).path_owed(k, path, c) ==> final(self).reported().contains(report_of(c)),
    {
        let ghost aut = self.automaton();
        let ghost streams = streams_of(self.sequences@);
        let ghost start = *self;
        let ghost d: nat = aut.dimensions as nat;
        self.automata_runner.consume(&self.sequences);
        proof {
            assert forall|m: int| 0 <= m < self.waiting_queues@.len() implies #[trigger] self.queue_ok(m) by {
                assert(start.queue_ok(m));
            }
        }
        let ghost configs1 = self.configs();
        self.report_finals();
        proof {
            assert forall|j: int| start.reported().len() <= j < self.reported().len() implies sound_report(aut, streams, #[trigger] self.reported()[j]) by {
                let x = keep_final(aut, configs1)[j - start.reported().len()];
                assert(self.reported()[j] == report_of(x));
                assert(keep_final(aut, configs1).contains(x));
                lemma_keep_final_contains(aut, configs1, x);
                let m = choose|m: int| 0 <= m < configs1.len() && configs1[m] == x;
                assert(config_valid(aut, streams, configs1[m]));
                assert(sound_report(aut, streams, report_of(x)));
            }
            assert(self.reported().subrange(0, start.reported().len() as int) =~= start.reported());
            assert forall|c: ConfigView| #[trigger] derivable(aut, streams, start.configs(), c) && aut.final_at(c.0 as int)
                implies self.reported().contains(report_of(c)) by {
                let (c0, m) = choose|c0: ConfigView, m: nat| start.configs().contains(c0) && #[trigger] derives(aut, streams, c0, c, m);
                lemma_found_reported(aut, streams, configs1, start.reported(), self.reported(), c0, c, m);
            }
        }
        let ghost b: nat = max_nat(queues_max(self.waiting_queues@), seq_max(self.read_size@)) + 1;
        proof {
            assert forall|k: int, j: int, i: int|
                0 <= k < self.waiting_queues@.len() && 0 <= j < self.waiting_queues@[k].1@.len() && 0 <= i < self.waiting_queues@[k].1@[j].start_indices@.len()
                implies #[trigger] self.waiting_queues@[k].1@[j].start_indices@[i] < b by {
                lemma_queues_max(self.waiting_queues@, k, j, i);
            }
            assert forall|t: int| 0 <= t < self.read_size@.len() implies #[trigger] self.read_size@[t] < b by {
                lemma_seq_max(self.read_size@, t);
            }
            assert forall|t: int| 0 <= t < self.num_tracks() implies #[trigger] self.is_eof(t) by {
                assert(start.is_eof(t));
            }
        }
        while self.any_waiting()
            invariant
                self.wf(),
                start.automaton() == aut,
                start.streams() == streams,
                self.automaton() == aut,
                streams == streams_of(self.sequences@),
                self.sequences@ == start.sequences@,
                self.read_size@ == start.read_size@,
                self.eof@ == start.eof@,
                forall|t: int| 0 <= t < self.num_tracks() ==> #[trigger] self.is_eof(t),
                d == aut.dimensions,
                b >= 1,
                entries_below(self.waiting_queues@, b),
                forall|t: int| 0 <= t < self.read_size@.len() ==> #[trigger] self.read_size@[t] < b,
                start.reported().len() <= self.reported().len(),
                self.reported().subrange(0, start.reported().len() as int) == start.reported(),
                forall|j: int| start.reported().len() <= j < self.reported().len() ==> sound_report(aut, streams, #[trigger] self.reported()[j]),
                self.waiting_queues@.len() == start.waiting_queues@.len(),
                forall|k: int| 0 <= k < self.waiting_queues@.len() ==> (#[trigger] self.waiting_queues@[k]).0@ == start.waiting_queues@[k].0@,
                forall|c: ConfigView| #[trigger] derivable(aut, streams, start.configs(), c) && aut.final_at(c.0 as int)
                    ==> self.reported().contains(report_of(c)),
                forall|k: int, path: Seq<Seq<usize>>, c: ConfigView| #[trigger] start.path_owed(k, path, c)
                    ==> self.reported().contains(report_of(c)) || exists|j: int|
                    0 <= j < path.len() && #[trigger] queue_view(self.waiting_queues@[k].1@).contains(path[j]),
            decreases total_measure(self.waiting_queues@, b, d),
        {
            let ghost before_clear = *self;
            self.automata_runner.clear();
            proof {
                assert forall|m: int| 0 <= m < self.waiting_queues@.len() implies #[trigger] self.queue_ok(m) by {
                    assert(before_clear.queue_ok(m));
                }
                assert forall|t: int| 0 <= t < self.num_tracks() implies #[trigger] self.is_eof(t) by {
                    assert(before_clear.is_eof(t));
                }
            }
            let n = self.waiting_queues.len();
            let ghost round_start = self.waiting_queues@;
            let ghost rep0 = self.reported();
            let ghost mut popped = false;
            for k in 0..n
                invariant
                    self.wf(),
                    self.automaton() == aut,
                    streams == streams_of(self.sequences@),
                    self.sequences@ == start.sequences@,
                    self.read_size@ == start.read_size@,
                    self.eof@ == start.eof@,
                    forall|t: int| 0 <= t < self.num_tracks() ==> #[trigger] self.is_eof(t),
                    d == aut.dimensions,
                    b >= 1,
                    n == self.waiting_queues@.len(),
                    round_start.len() == n,
                    entries_below(self.waiting_queues@, b),
                    forall|t: int| 0 <= t < self.read_size@.len() ==> #[trigger] self.read_size@[t] < b,
                    forall|m: int| k <= m < n ==> #[trigger] self.waiting_queues@[m] == round_start[m],
                    popped ==> total_measure(self.waiting_queues@, b, d) < total_measure(round_start, b, d),
                    !popped ==> total_measure(self.waiting_queues@, b, d) == total_measure(round_start, b, d),
                    !popped ==> forall|m: int| 0 <= m < k ==> (#[trigger] round_start[m]).1@.len() == 0,
                    start.reported().len() <= self.reported().len(),
                    self.reported().subrange(0, start.reported().len() as int) == start.reported(),
                    forall|j: int| start.reported().len() <= j < self.reported().len() ==> sound_report(aut, streams, #[trigger] self.reported()[j]),
                    self.reported() == rep0,
                    forall|m: int| 0 <= m < n ==> (#[trigger] self.waiting_queues@[m]).0@ == start.waiting_queues@[m].0@,
                    forall|m: int| 0 <= m < n ==> (#[trigger] round_start[m]).0@ == start.waiting_queues@[m].0@,
                    start.waiting_queues@.len() == n,
                    forall|c: ConfigView| #[trigger] derivable(aut, streams, start.configs(), c) && aut.final_at(c.0 as int)
                        ==> rep0.contains(report_of(c)),
                    forall|k2: int, path: Seq<Seq<usize>>, c: ConfigView| #[trigger] start.path_owed(k2, path, c)
                        ==> rep0.contains(report_of(c)) || (exists|j: int|
                        0 <= j < path.len() && #[trigger] queue_view(self.waiting_queues@[k2].1@).contains(path[j]))
                        || (k2 < k && round_start[k2].1@.len() > 0 && path.last() == queue_view(round_start[k2].1@)[0]),
                    forall|k2: int, c0: ConfigView| 0 <= k2 < k && round_start[k2].1@.len() > 0
                        && #[trigger] trial_config(aut, streams, start.waiting_queues@[k2].0@, queue_view(round_start[k2].1@)[0], c0)
                        ==> self.configs().contains(c0),
            {
                let ghost before = *self;
                let ghost before_q = self.waiting_queues@;
                self.start_trial(k);
                proof {
                    assert forall|t: int| 0 <= t < self.num_tracks() implies #[trigger] self.is_eof(t) by {
                        assert(before.is_eof(t));
                    }
                    assert forall|j: int| start.reported().len() <= j < self.reported().len() implies sound_report(aut, streams, #[trigger] self.reported()[j]) by {
                        assert(self.reported()[j] == before.reported()[j]);
                    }
                    let newx = self.waiting_queues@[k as int];
                    assert(self.waiting_queues@ =~= before_q.update(k as int, newx));
                    lemma_total_update(before_q, k as int, newx, b, d);
                    assert(before.queue_ok(k as int));
                    assert forall|j: int, i: int| 0 <= j < newx.1@.len() && 0 <= i < newx.1@[j].start_indices@.len()
                        implies #[trigger] newx.1@[j].start_indices@[i] < b by {
                        assert(self.queue_ok(k as int));
                        if queue_view(before_q[k as int].1@).contains(newx.1@[j].start_indices@) {
                            let m = choose|m: int| 0 <= m < before_q[k as int].1@.len() && queue_view(before_q[k as int].1@)[m] == newx.1@[j].start_indices@;
                            assert(before_q[k as int].1@[m].start_indices@[i] < b);
                        } else {
                            assert(before.in_range_spec(newx.1@[j].start_indices@, newx.0@));
                            let id = newx.0@;
                            assert(id[i] < self.num_tracks());
                            assert(before.is_eof(id[i] as int));
                            assert(self.read_size@[id[i] as int] < b);
                        }
                    }
                    assert forall|kk: int, j: int, i: int|
                        0 <= kk < self.waiting_queues@.len() && 0 <= j < self.waiting_queues@[kk].1@.len() && 0 <= i < self.waiting_queues@[kk].1@[j].start_indices@.len()
                        implies #[trigger] self.waiting_queues@[kk].1@[j].start_indices@[i] < b by {
                        if kk != k {
                            assert(self.waiting_queues@[kk] == before_q[kk]);
                        }
                    }
                    if before_q[k as int].1@.len() > 0 {
                        let pv = before_q[k as int].1@[0].start_indices@;
                        assert(pv.len() == d);
                        assert forall|i: int| 0 <= i < pv.len() implies pv[i] < b by {
                            assert(before_q[k as int].1@[0].start_indices@[i] < b);
                        }
                        lemma_rank_bound(pv, 0, b);
                        if newx.1@.len() > 0 {
                            let qv = newx.1@[0].start_indices@;
                            assert(self.queue_ok(k as int));
                            assert(qv.len() == d);
                            assert forall|i: int| 0 <= i < qv.len() implies qv[i] < b by {
                                assert(newx.1@[0].start_indices@[i] < b);
                            }
                            lemma_rank_bound(qv, 0, b);
                            lemma_rank_lex(pv, qv, 0, b);
                        }
                        popped = true;
                    }
                    assert(self.waiting_queues@[k as int].0@ == before_q[k as int].0@);
                    assert forall|m: int| 0 <= m < n implies (#[trigger] self.waiting_queues@[m]).0@ == start.waiting_queues@[m].0@ by {
                        if m != k {
                            assert(self.waiting_queues@[m] == before_q[m]);
                        }
                    }
                    assert(before_q[k as int] == round_start[k as int]);
                    assert forall|c: ConfigView| before.configs().contains(c) implies #[trigger] self.configs().contains(c) by {
                    }
                    assert forall|k2: int, c0: ConfigView| 0 <= k2 < k + 1 && round_start[k2].1@.len() > 0
                        && #[trigger] trial_config(aut, streams, start.waiting_queues@[k2].0@, queue_view(round_start[k2].1@)[0], c0)
                        implies self.configs().contains(c0) by {
                        if k2 < k {
                            assert(before.configs().contains(c0));
                        } else {
                            assert(queue_view(before_q[k as int].1@)[0] == before_q[k as int].1@[0].start_indices@);
                        }
                    }
                    assert forall|k2: int, path: Seq<Seq<usize>>, c: ConfigView| #[trigger] start.path_owed(k2, path, c)
                        implies rep0.contains(report_of(c)) || (exists|j: int|
                        0 <= j < path.len() && #[trigger] queue_view(self.waiting_queues@[k2].1@).contains(path[j]))
                        || (k2 < k + 1 && round_start[k2].1@.len() > 0 && path.last() == queue_view(round_start[k2].1@)[0]) by {
                        if k2 != k {
                            if 0 <= k2 < n {
                                assert(self.waiting_queues@[k2] == before_q[k2]);
                            }
                        } else if !rep0.contains(report_of(c)) && exists|j: int|
                            0 <= j < path.len() && #[trigger] queue_view(before_q[k as int].1@).contains(path[j]) {
                            let j = choose|j: int| 0 <= j < path.len() && #[trigger] queue_view(before_q[k as int].1@).contains(path[j]);
                            let q0 = queue_view(before_q[k as int].1@);
                            if path[j] != q0[0] {
                                assert(queue_view(self.waiting_queues@[k as int].1@).contains(path[j]));
                            } else if j + 1 < path.len() {
                                assert(next_position(path[j], path[j + 1]) && start.in_range_spec(path[j + 1], start.tuple(k as int)));
                                assert(before.in_range_spec(path[j + 1], before_q[k as int].0@));
                                assert(queue_view(self.waiting_queues@[k as int].1@).contains(path[j + 1]));
                            } else {
                                assert(path.last() == q0[0]);
                                assert(before_q[k as int] == round_start[k as int]);
                            }
                        }
                    }
                }
            }
            proof {
                if !popped {
                    let m = choose|m: int| 0 <= m < round_start.len() && (#[trigger] round_start[m]).1@.len() > 0;
                }
            }
            let ghost before_consume = *self;
            self.automata_runner.consume(&self.sequences);
            proof {
                assert forall|m: int| 0 <= m < self.waiting_queues@.len() implies #[trigger] self.queue_ok(m) by {
                    assert(before_consume.queue_ok(m));
                }
            }
            let ghost configs2 = self.configs();
            let ghost reported2 = self.reported();
            self.report_finals();
            proof {
                assert forall|j: int| start.reported().len() <= j < self.reported().len() implies sound_report(aut, streams, #[trigger] self.reported()[j]) by {
                    if j < reported2.len() {
                        assert(self.reported()[j] == reported2[j]);
                    } else {
                        let x = keep_final(aut, configs2)[j - reported2.len()];
                        assert(keep_final(aut, configs2).contains(x));
                        lemma_keep_final_contains(aut, configs2, x);
                        let m = choose|m: int| 0 <= m < configs2.len() && configs2[m] == x;
                        assert(config_valid(aut, streams, configs2[m]));
                        assert(self.reported()[j] == report_of(x));
                        assert(sound_report(aut, streams, report_of(x)));
                    }
                }
                assert(self.reported().subrange(0, start.reported().len() as int) =~= start.reported());
                assert forall|t: int| 0 <= t < self.num_tracks() implies #[trigger] self.is_eof(t) by {
                    assert(before_consume.is_eof(t));
                }
                assert forall|r: MatchingReport| rep0.contains(r) implies #[trigger] self.reported().contains(r) by {
                    let j = choose|j: int| 0 <= j < rep0.len() && rep0[j] == r;
                    assert(self.reported()[j] == r);
                }
                assert forall|c: ConfigView| #[trigger] derivable(aut, streams, start.configs(), c) && aut.final_at(c.0 as int)
                    implies self.reported().contains(report_of(c)) by {
                    assert(rep0.contains(report_of(c)));
                }
                assert forall|k2: int, path: Seq<Seq<usize>>, c: ConfigView| #[trigger] start.path_owed(k2, path, c)
                    implies self.reported().contains(report_of(c)) || exists|j: int|
                    0 <= j < path.len() && #[trigger] queue_view(self.waiting_queues@[k2].1@).contains(path[j]) by {
                    if rep0.contains(report_of(c)) {
                    } else if exists|j: int| 0 <= j < path.len() && #[trigger] queue_view(self.waiting_queues@[k2].1@).contains(path[j]) {
                    } else {
                        let p = path.last();
                        assert(round_start[k2].1@.len() > 0 && p == queue_view(round_start[k2].1@)[0]);
                        assert(start.automaton() == aut && start.streams() == streams);
                        assert(start.tuple(k2) == start.waiting_queues@[k2].0@);
                        assert(trial_derivable(aut, streams, start.waiting_queues@[k2].0@, p, c));
                        let (c0, m) = choose|c0: ConfigView, m: nat| trial_config(aut, streams, start.waiting_queues@[k2].0@, p, c0)
                            && #[trigger] derives(aut, streams, c0, c, m);
                        assert(before_consume.configs().contains(c0));
                        assert(configs2.contains(c0));
                        lemma_found_reported(aut, streams, configs2, reported2, self.reported(), c0, c, m);
                    }
                }
            }
        }
        proof {
            assert forall|k: int, p: Seq<usize>, c: ConfigView|
                0 <= k < start.num_tuples() && start.queue_of(k).contains(p)
                    && #[trigger] trial_derivable(aut, streams, start.tuple(k), p, c)
                    && aut.final_at(c.0 as int) implies self.reported().contains(report_of(c)) by {
                let path = seq![p];
                assert(path.last() == p);
                assert(start.path_owed(k, path, c));
                if queue_view(self.waiting_queues@[k].1@).contains(p) {
                    assert(self.waiting_queues@[k].1@.len() > 0);
                }
            }
            assert forall|k: int, path: Seq<Seq<usize>>, c: ConfigView| #[trigger] start.path_owed(k, path, c)
                implies self.reported().contains(report_of(c)) by {
                if exists|j: int| 0 <= j < path.len() && #[trigger] queue_view(self.waiting_queues@[k].1@).contains(path[j]) {
                    let j = choose|j: int| 0 <= j < path.len() && #[trigger] queue_view(self.waiting_queues@[k].1@).contains(path[j]);
                    assert(self.waiting_queues@[k].1@.len() > 0);
                }
            }
        }
    }
}


impl<'a, Notifier: ResultNotifier> HyperPatternMatching for NaiveHyperPatternMatching<'a, Notifier> {
    closed spec fn ready(&self) -> bool {
        self.wf()
    }

    closed spec fn tracks(&self) -> nat {
        self.num_tracks()
    }

    closed spec fn fed(&self) -> Seq<Seq<Seq<char>>> {
        self.streams()
    }

    proof fn lemma_fed_len(&self) {
    }

    closed spec fn ended(&self, track: int) -> bool {
        self.is_eof(track)
    }

    fn feed(&mut self, action: &str, track: usize)
        ensures
            final(self).automaton() == old(self).automaton(),
            final(self).num_tracks() == old(self).num_tracks(),
            forall|t: int| #[trigger] final(self).is_eof(t) == old(self).is_eof(t),
            final(self).streams() == old(self).streams().update(track as int, old(self).streams()[track as int].push(action@)),
            old(self).reported().len() <= final(self).reported().len(),
            final(self).reported().subrange(0, old(self).reported().len() as int) == old(self).reported(),
            forall|e: MatchingReport| #[trigger] final(self).reported().subrange(
                old(self).reported().len() as int,
                final(self).reported().len() as int,
            ).contains(e) ==> exists|c: ConfigView|
                derivable(final(self).automaton(), final(self).streams(), old(self).configs(), c)
                    && final(self).automaton().final_at(c.0 as int) && e == #[trigger] report_of(c),
            forall|c: ConfigView|
                derivable(final(self).automaton(), final(self).streams(), old(self).configs(), c)
                    && final(self).automaton().final_at(c.0 as int) ==> #[trigger] final(self).reported().subrange(
                    old(self).reported().len() as int,
                    final(self).reported().len() as int,
                ).contains(report_of(c)),
    {
        NaiveHyperPatternMatching::feed(self, action, track);
    }

    fn dimensions(&self) -> (r: usize) {
        self.sequences.len()
    }

    fn consume_remaining(&mut self)
        ensures
            final(self).automaton() == old(self).automaton(),
            final(self).streams() == old(self).streams(),
            final(self).num_tracks() == old(self).num_tracks(),
            forall|t: int| #[trigger] final(self).is_eof(t) == old(self).is_eof(t),
            final(self).queues_empty(),
            old(self).reported().len() <= final(self).reported().len(),
            final(self).reported().subrange(0, old(self).reported().len() as int) == old(self).reported(),
            forall|j: int| old(self).reported().len() <= j < final(self).reported().len() ==> sound_report(
                final(self).automaton(),
                final(self).streams(),
                #[trigger] final(self).reported()[j],
            ),
    {
        proof {
            assert forall|t: int| 0 <= t < self.num_tracks() implies #[trigger] self.is_eof(t) by {
                assert(self.ended(t));
            }
        }
        NaiveHyperPatternMatching::consume_remaining(self);
    }

    fn set_eof(&mut self, track: usize) {
        NaiveHyperPatternMatching::set_eof(self, track);
    }
}

} // verus!
