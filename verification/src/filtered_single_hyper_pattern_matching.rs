use vstd::prelude::*;
use crate::automata::Automata;
use crate::sequence::{AppendOnlySequence, ReadableView};
use crate::filtered_pattern_matching_automata_runner::{
    FilteredPatternMatchingAutomataConfiguration, FilteredPatternMatchingAutomataRunner, filtered_streams_of,
    filtered_valid, filtered_derivable, filtered_derives, lemma_filtered_derives_keeps,
    lemma_filtered_closed_contains_derived, lemma_keep_filtered_waiting, lemma_drop_filtered_masked,
    lemma_filtered_valid_extend,
};
use crate::hyper_pattern_matching::{ConfigView, starts_of, copy_views, copy_positions, keep_final, lemma_keep_final_contains};
use crate::naive_hyper_pattern_matching::{MatchingReport, report_of, reports_of, all_below_max};
use crate::result_notifier::{MatchingInterval, ResultNotifier};
use crate::dfa::distinct;
use vstd::set_lib::lemma_len_subset;
use crate::start_position::{
    StartPosition, copy_start_position, lex_less, lemma_lex_increment, lemma_lex_transitive, insert_position,
    queue_view, sorted_strict,
};

verus! {

/// No index of `x` lies at or past the end of a closed stream.
pub open spec fn position_in_range(sequences: Seq<&AppendOnlySequence<Option<String>>>, x: Seq<usize>) -> bool {
    forall|i: int| 0 <= i < x.len() ==> !(#[trigger] sequences[i].is_closed_spec() && x[i] >= sequences[i].items().len())
}

/// The index of dimension `i` of `x` stands on a masked element.
pub open spec fn masked_at(streams: Seq<Seq<Option<Seq<char>>>>, x: Seq<usize>, i: int) -> bool {
    0 <= i < x.len() && x[i] < streams[i].len() && streams[i][x[i] as int] is None
}

/// Some index of `x` stands on a masked element.
pub open spec fn position_skipped(streams: Seq<Seq<Option<Seq<char>>>>, x: Seq<usize>) -> bool {
    exists|i: int| #[trigger] masked_at(streams, x, i)
}

/// `q` is `p` with one index moved forward by one; no index of `p` is at
/// its largest value.
pub open spec fn next_position(p: Seq<usize>, q: Seq<usize>) -> bool {
    &&& forall|j: int| 0 <= j < p.len() ==> p[j] < usize::MAX
    &&& exists|k: int| 0 <= k < p.len() && q == #[trigger] p.update(k, (p[k] + 1) as usize)
}

/// From `p`, the search for start positions goes on through `q`: `q` is in
/// range and skipped, and, when `p` is skipped too, `q` moves one of the
/// indices of `p` that stand on a masked element.
pub open spec fn skip_step(sequences: Seq<&AppendOnlySequence<Option<String>>>, p: Seq<usize>, q: Seq<usize>) -> bool {
    let streams = filtered_streams_of(sequences);
    &&& next_position(p, q)
    &&& position_in_range(sequences, q)
    &&& position_skipped(streams, q)
    &&& (!position_skipped(streams, p) || exists|i: int| #[trigger] masked_at(streams, p, i) && q[i] != p[i])
}

/// From `p`, the search finds the start position `q`: `q` is in range and
/// not skipped.
pub open spec fn found_step(sequences: Seq<&AppendOnlySequence<Option<String>>>, p: Seq<usize>, q: Seq<usize>) -> bool {
    &&& next_position(p, q)
    &&& position_in_range(sequences, q)
    &&& !position_skipped(filtered_streams_of(sequences), q)
}

/// The search from `p` finds `q` after going through `n` skipped positions.
pub open spec fn finds_in(sequences: Seq<&AppendOnlySequence<Option<String>>>, p: Seq<usize>, q: Seq<usize>, n: nat) -> bool
    decreases n,
{
    if n == 0 {
        found_step(sequences, p, q)
    } else {
        exists|e: Seq<usize>| #[trigger] skip_step(sequences, p, e) && finds_in(sequences, e, q, (n - 1) as nat)
    }
}

/// The search from `p` finds `q`.
pub open spec fn finds(sequences: Seq<&AppendOnlySequence<Option<String>>>, p: Seq<usize>, q: Seq<usize>) -> bool {
    exists|n: nat| #[trigger] finds_in(sequences, p, q, n)
}

/// `e` is reached from `p` through `n` skipped positions.
pub open spec fn skips_in(sequences: Seq<&AppendOnlySequence<Option<String>>>, p: Seq<usize>, e: Seq<usize>, n: nat) -> bool
    decreases n,
{
    if n == 0 {
        e == p
    } else {
        exists|m: Seq<usize>| #[trigger] skip_step(sequences, p, m) && skips_in(sequences, m, e, (n - 1) as nat)
    }
}

/// Going through `n` skipped positions to `e` and then finding `q` from
/// `e` finds `q` from `p`.
proof fn lemma_skips_then_finds(
    sequences: Seq<&AppendOnlySequence<Option<String>>>,
    p: Seq<usize>,
    e: Seq<usize>,
    q: Seq<usize>,
    n: nat,
    m: nat,
)
    requires
        skips_in(sequences, p, e, n),
        finds_in(sequences, e, q, m),
    ensures
        finds_in(sequences, p, q, n + m),
    decreases n,
{
    if n > 0 {
        let x = choose|x: Seq<usize>| #[trigger] skip_step(sequences, p, x) && skips_in(sequences, x, e, (n - 1) as nat);
        lemma_skips_then_finds(sequences, x, e, q, (n - 1) as nat, m);
        assert(((n + m) - 1) as nat == ((n - 1) as nat + m));
    }
}

/// Going through `n` skipped positions to `e` and one more step to `x`.
proof fn lemma_skips_extend(
    sequences: Seq<&AppendOnlySequence<Option<String>>>,
    p: Seq<usize>,
    e: Seq<usize>,
    x: Seq<usize>,
    n: nat,
)
    requires
        skips_in(sequences, p, e, n),
        skip_step(sequences, e, x),
    ensures
        skips_in(sequences, p, x, n + 1),
    decreases n,
{
    if n == 0 {
        assert(skips_in(sequences, x, x, 0));
    } else {
        let y = choose|y: Seq<usize>| #[trigger] skip_step(sequences, p, y) && skips_in(sequences, y, e, (n - 1) as nat);
        lemma_skips_extend(sequences, y, e, x, (n - 1) as nat);
    }
}

impl<'a, Notifier: ResultNotifier> NaiveFilteredSingleHyperPatternMatching<'a, Notifier> {
    /// Whether `x` has no index at or past the end of a closed stream.
    pub fn in_range(&self, x: &StartPosition, sequences: &Vec<&AppendOnlySequence<Option<String>>>) -> (r: bool)
        requires
            x.start_indices@.len() <= sequences@.len(),
        ensures
            r == position_in_range(sequences@, x.start_indices@),
    {
        for i in 0..x.start_indices.len()
            invariant
                x.start_indices@.len() <= sequences@.len(),
                forall|k: int| 0 <= k < i ==> !(#[trigger] sequences@[k].is_closed_spec() && x.start_indices@[k] >= sequences@[k].items().len()),
        {
            let s = sequences[i];
            if s.is_closed() && x.start_indices[i] >= s.len() {
                assert(sequences@[i as int].is_closed_spec());
                return false;
            }
        }
        true
    }
}

/// Whether the index of dimension `i` of `x` stands on a masked element.
fn masked_at_exec(x: &StartPosition, sequences: &Vec<&AppendOnlySequence<Option<String>>>, i: usize) -> (r: bool)
    requires
        i < x.start_indices@.len() <= sequences@.len(),
    ensures
        r == masked_at(filtered_streams_of(sequences@), x.start_indices@, i as int),
{
    let s = sequences[i];
    assert(filtered_streams_of(sequences@)[i as int] == s.items_deep());
    match s.get(x.start_indices[i]) {
        Some(h) => {
            assert(filtered_streams_of(sequences@)[i as int][x.start_indices@[i as int] as int] == h.deep_view());
            h.is_none()
        },
        None => false,
    }
}

impl<'a, Notifier: ResultNotifier> NaiveFilteredSingleHyperPatternMatching<'a, Notifier> {
    /// Whether some index of `x` stands on a masked element.
    pub fn is_skipped(&self, x: &StartPosition, sequences: &Vec<&AppendOnlySequence<Option<String>>>) -> (r: bool)
        requires
            x.start_indices@.len() <= sequences@.len(),
        ensures
            r == position_skipped(filtered_streams_of(sequences@), x.start_indices@),
    {
        let ghost streams = filtered_streams_of(sequences@);
        for i in 0..x.start_indices.len()
            invariant
                x.start_indices@.len() <= sequences@.len(),
                streams == filtered_streams_of(sequences@),
                forall|k: int| 0 <= k < i ==> !#[trigger] masked_at(streams, x.start_indices@, k),
        {
            if masked_at_exec(x, sequences, i) {
                return true;
            }
        }
        false
    }

    /// The dimensions whose index in `x` stands on a masked element, in
    /// increasing order.
    pub fn skipped_streams(&self, x: &StartPosition, sequences: &Vec<&AppendOnlySequence<Option<String>>>) -> (r: Vec<usize>)
        requires
            x.start_indices@.len() <= sequences@.len(),
        ensures
            forall|j: int| 0 <= j < r@.len() ==> masked_at(filtered_streams_of(sequences@), x.start_indices@, #[trigger] r@[j] as int),
            forall|i: int| #[trigger] masked_at(filtered_streams_of(sequences@), x.start_indices@, i) ==> r@.contains(i as usize),
            forall|j: int, k: int| 0 <= j < k < r@.len() ==> r@[j] < r@[k],
    {
        let ghost streams = filtered_streams_of(sequences@);
        let mut r: Vec<usize> = Vec::new();
        for i in 0..x.start_indices.len()
            invariant
                x.start_indices@.len() <= sequences@.len(),
                streams == filtered_streams_of(sequences@),
                forall|j: int| 0 <= j < r@.len() ==> masked_at(streams, x.start_indices@, #[trigger] r@[j] as int),
                forall|k: int| 0 <= k < i && #[trigger] masked_at(streams, x.start_indices@, k) ==> r@.contains(k as usize),
                forall|j: int| 0 <= j < r@.len() ==> #[trigger] r@[j] < i,
                forall|j: int, k: int| 0 <= j < k < r@.len() ==> r@[j] < r@[k],
        {
            if masked_at_exec(x, sequences, i) {
                let ghost before = r@;
                r.push(i);
                proof {
                    assert forall|k: int| 0 <= k < i + 1 && #[trigger] masked_at(streams, x.start_indices@, k) implies r@.contains(k as usize) by {
                        if k < i {
                            let j = choose|j: int| 0 <= j < before.len() && before[j] == k as usize;
                            assert(r@[j] == before[j]);
                        } else {
                            assert(r@[r@.len() - 1] == i);
                        }
                    }
                }
            } else {
                proof {
                    assert forall|k: int| 0 <= k < i + 1 && #[trigger] masked_at(streams, x.start_indices@, k) implies r@.contains(k as usize) by {
                        assert(k != i);
                    }
                }
            }
        }
        proof {
            assert forall|i: int| #[trigger] masked_at(streams, x.start_indices@, i) implies r@.contains(i as usize) by {}
        }
        r
    }
}

/// The sum over the first `n` dimensions of the index of `x`, each capped
/// at the length of its stream.
pub open spec fn capped_sum(x: Seq<usize>, streams: Seq<Seq<Option<Seq<char>>>>, n: int) -> int
    decreases n,
{
    if n <= 0 {
        0
    } else {
        let v = if x[n - 1] < streams[n - 1].len() { x[n - 1] as int } else { streams[n - 1].len() as int };
        capped_sum(x, streams, n - 1) + v
    }
}

/// The total length of the first `n` streams.
pub open spec fn total_len(streams: Seq<Seq<Option<Seq<char>>>>, n: int) -> int
    decreases n,
{
    if n <= 0 {
        0
    } else {
        total_len(streams, n - 1) + streams[n - 1].len()
    }
}

proof fn lemma_capped_sum_bound(x: Seq<usize>, streams: Seq<Seq<Option<Seq<char>>>>, n: int)
    ensures
        0 <= capped_sum(x, streams, n) <= total_len(streams, n),
    decreases n,
{
    if n > 0 {
        lemma_capped_sum_bound(x, streams, n - 1);
    }
}

/// Moving forward an index that lies before the end of its stream adds one
/// to the capped sum.
proof fn lemma_capped_sum_step(x: Seq<usize>, streams: Seq<Seq<Option<Seq<char>>>>, n: int, k: int)
    requires
        0 <= k < n <= x.len(),
        x[k] < streams[k].len(),
        x[k] < usize::MAX,
    ensures
        capped_sum(x.update(k, (x[k] + 1) as usize), streams, n) == capped_sum(x, streams, n) + 1,
    decreases n,
{
    let y = x.update(k, (x[k] + 1) as usize);
    if k < n - 1 {
        lemma_capped_sum_step(x, streams, n - 1, k);
        assert(y[n - 1] == x[n - 1]);
    } else {
        lemma_capped_sum_same(x, y, streams, n - 1);
    }
}

proof fn lemma_capped_sum_same(x: Seq<usize>, y: Seq<usize>, streams: Seq<Seq<Option<Seq<char>>>>, n: int)
    requires
        forall|i: int| 0 <= i < n ==> x[i] == y[i],
    ensures
        capped_sum(x, streams, n) == capped_sum(y, streams, n),
    decreases n,
{
    if n > 0 {
        lemma_capped_sum_same(x, y, streams, n - 1);
    }
}

/// A step through a skipped position moves an index that lies before the
/// end of its stream.
proof fn lemma_skip_step_weight(sequences: Seq<&AppendOnlySequence<Option<String>>>, p: Seq<usize>, q: Seq<usize>)
    requires
        skip_step(sequences, p, q),
    ensures
        q.len() == p.len(),
        capped_sum(q, filtered_streams_of(sequences), p.len() as int) == capped_sum(p, filtered_streams_of(sequences), p.len() as int) + 1,
{
    let streams = filtered_streams_of(sequences);
    let k = choose|k: int| 0 <= k < p.len() && q == #[trigger] p.update(k, (p[k] + 1) as usize);
    if !position_skipped(streams, p) {
        let i = choose|i: int| #[trigger] masked_at(streams, q, i);
        if i != k {
            assert(masked_at(streams, p, i));
        }
    } else {
        let i = choose|i: int| #[trigger] masked_at(streams, p, i) && q[i] != p[i];
        assert(i == k);
    }
    lemma_capped_sum_step(p, streams, p.len() as int, k);
}

/// A search that goes through at least `d` skipped positions goes through
/// some position reached by `d` of them.
proof fn lemma_finds_split(
    sequences: Seq<&AppendOnlySequence<Option<String>>>,
    p: Seq<usize>,
    q: Seq<usize>,
    n: nat,
    d: nat,
)
    requires
        finds_in(sequences, p, q, n),
        d <= n,
    ensures
        exists|e: Seq<usize>| #[trigger] skips_in(sequences, p, e, d) && finds_in(sequences, e, q, (n - d) as nat),
    decreases d,
{
    if d == 0 {
        assert(skips_in(sequences, p, p, 0));
    } else {
        let x = choose|x: Seq<usize>| #[trigger] skip_step(sequences, p, x) && finds_in(sequences, x, q, (n - 1) as nat);
        lemma_finds_split(sequences, x, q, (n - 1) as nat, (d - 1) as nat);
        let e = choose|e: Seq<usize>| #[trigger] skips_in(sequences, x, e, (d - 1) as nat) && finds_in(sequences, e, q, ((n - 1) as nat - (d - 1) as nat) as nat);
        assert(skips_in(sequences, p, e, d));
        assert(((n - 1) as nat - (d - 1) as nat) as nat == (n - d) as nat);
    }
}

/// A position reached through `d + 1` skipped positions follows one reached
/// through `d`.
proof fn lemma_skips_last(sequences: Seq<&AppendOnlySequence<Option<String>>>, p: Seq<usize>, x: Seq<usize>, d: nat)
    requires
        skips_in(sequences, p, x, d + 1),
    ensures
        exists|e: Seq<usize>| #[trigger] skips_in(sequences, p, e, d) && skip_step(sequences, e, x),
    decreases d,
{
    let y = choose|y: Seq<usize>| #[trigger] skip_step(sequences, p, y) && skips_in(sequences, y, x, d);
    if d == 0 {
        assert(skips_in(sequences, p, p, 0));
    } else {
        lemma_skips_last(sequences, y, x, (d - 1) as nat);
        let e = choose|e: Seq<usize>| #[trigger] skips_in(sequences, y, e, (d - 1) as nat) && skip_step(sequences, e, x);
        assert(skips_in(sequences, p, e, d));
    }
}

/// Positions reached through skipped positions keep their number of
/// dimensions and gain weight one by one.
proof fn lemma_skips_weight(sequences: Seq<&AppendOnlySequence<Option<String>>>, p: Seq<usize>, e: Seq<usize>, d: nat)
    requires
        skips_in(sequences, p, e, d),
    ensures
        e.len() == p.len(),
        capped_sum(e, filtered_streams_of(sequences), p.len() as int) == capped_sum(p, filtered_streams_of(sequences), p.len() as int) + d,
    decreases d,
{
    if d > 0 {
        let y = choose|y: Seq<usize>| #[trigger] skip_step(sequences, p, y) && skips_in(sequences, y, e, (d - 1) as nat);
        lemma_skip_step_weight(sequences, p, y);
        lemma_skips_weight(sequences, y, e, (d - 1) as nat);
    }
}

/// Whether some listed dimension has a different index in `a` and `b`.
fn moves_some(dims: &Vec<usize>, a: &StartPosition, b: &StartPosition) -> (r: bool)
    requires
        forall|j: int| 0 <= j < dims@.len() ==> #[trigger] dims@[j] < a.start_indices@.len(),
        a.start_indices@.len() == b.start_indices@.len(),
    ensures
        r == exists|j: int| 0 <= j < dims@.len() && a.start_indices@[#[trigger] dims@[j] as int] != b.start_indices@[dims@[j] as int],
{
    for j in 0..dims.len()
        invariant
            forall|j: int| 0 <= j < dims@.len() ==> #[trigger] dims@[j] < a.start_indices@.len(),
            a.start_indices@.len() == b.start_indices@.len(),
            forall|m: int| 0 <= m < j ==> a.start_indices@[#[trigger] dims@[m] as int] == b.start_indices@[dims@[m] as int],
    {
        let i = dims[j];
        if a.start_indices[i] != b.start_indices[i] {
            return true;
        }
    }
    false
}

impl<'a, Notifier: ResultNotifier> NaiveFilteredSingleHyperPatternMatching<'a, Notifier> {
    /// The start positions found from `start`: the search moves one index at
    /// a time, goes on through positions in range that stand on a masked
    /// element (moving, once on one, an index that stands on a masked
    /// element), and keeps the positions in range that stand on none.
    pub fn compute_valid_successors(&self, start: &StartPosition, sequences: &Vec<&AppendOnlySequence<Option<String>>>) -> (r: Vec<StartPosition>)
        requires
            start.start_indices@.len() <= sequences@.len(),
        ensures
            forall|j: int| 0 <= j < r@.len() ==> finds(sequences@, start.start_indices@, #[trigger] r@[j].start_indices@),
            forall|q: Seq<usize>| #[trigger] finds(sequences@, start.start_indices@, q) ==> exists|j: int|
                0 <= j < r@.len() && r@[j].start_indices@ == q,
    {
        let ghost sq = sequences@;
        let ghost streams = filtered_streams_of(sq);
        let ghost sv = start.start_indices@;
        let ghost dims = sv.len() as int;
        let ghost base = capped_sum(sv, streams, dims);
        let ghost total = total_len(streams, dims);
        let mut valid: Vec<StartPosition> = Vec::new();
        let mut layer: Vec<StartPosition> = Vec::new();
        layer.push(copy_start_position(start));
        let ghost mut depth: nat = 0;
        proof {
            lemma_capped_sum_bound(sv, streams, dims);
            assert(skips_in(sq, sv, sv, 0));
            assert forall|e: Seq<usize>| #[trigger] skips_in(sq, sv, e, 0) implies exists|j: int| 0 <= j < layer@.len() && layer@[j].start_indices@ == e by {
                assert(layer@[0].start_indices@ == e);
            }
        }
        while layer.len() > 0
            invariant
                sq == sequences@,
                streams == filtered_streams_of(sq),
                sv == start.start_indices@,
                dims == sv.len(),
                dims <= sq.len(),
                base == capped_sum(sv, streams, dims),
                total == total_len(streams, dims),
                forall|j: int| 0 <= j < layer@.len() ==> #[trigger] skips_in(sq, sv, layer@[j].start_indices@, depth),
                forall|e: Seq<usize>| #[trigger] skips_in(sq, sv, e, depth) ==> exists|j: int| 0 <= j < layer@.len() && layer@[j].start_indices@ == e,
                forall|j: int| 0 <= j < valid@.len() ==> finds(sq, sv, #[trigger] valid@[j].start_indices@),
                forall|q: Seq<usize>, n: nat| n < depth && #[trigger] finds_in(sq, sv, q, n) ==> exists|j: int|
                    0 <= j < valid@.len() && valid@[j].start_indices@ == q,
                layer@.len() > 0 ==> base + depth <= total,
            decreases total + 1 - base - depth,
        {
            proof {
                lemma_skips_weight(sq, sv, layer@[0].start_indices@, depth);
                lemma_capped_sum_bound(layer@[0].start_indices@, streams, dims);
            }
            let mut next: Vec<StartPosition> = Vec::new();
            for j in 0..layer.len()
                invariant
                    sq == sequences@,
                    streams == filtered_streams_of(sq),
                    sv == start.start_indices@,
                    dims == sv.len(),
                    dims <= sq.len(),
                    forall|m: int| 0 <= m < layer@.len() ==> #[trigger] skips_in(sq, sv, layer@[m].start_indices@, depth),
                    forall|m: int| 0 <= m < next@.len() ==> #[trigger] skips_in(sq, sv, next@[m].start_indices@, depth + 1),
                    forall|m: int| 0 <= m < valid@.len() ==> finds(sq, sv, #[trigger] valid@[m].start_indices@),
                    forall|m: int, x: Seq<usize>| 0 <= m < j && #[trigger] skip_step(sq, layer@[m].start_indices@, x) ==> exists|i: int|
                        0 <= i < next@.len() && next@[i].start_indices@ == x,
                    forall|m: int, x: Seq<usize>| 0 <= m < j && #[trigger] found_step(sq, layer@[m].start_indices@, x) ==> exists|i: int|
                        0 <= i < valid@.len() && valid@[i].start_indices@ == x,
                    forall|q: Seq<usize>, n: nat| n < depth && #[trigger] finds_in(sq, sv, q, n) ==> exists|i: int|
                        0 <= i < valid@.len() && valid@[i].start_indices@ == q,
            {
                let e = &layer[j];
                let ghost ev = e.start_indices@;
                let ghost next0 = next@;
                let ghost valid0 = valid@;
                proof {
                    lemma_skips_weight(sq, sv, ev, depth);
                }
                let below = all_below_max(e);
                if below {
                    let skipped_here = self.skipped_streams(e, sequences);
                    let e_skipped = skipped_here.len() > 0;
                    proof {
                        if position_skipped(streams, ev) {
                            let i = choose|i: int| #[trigger] masked_at(streams, ev, i);
                            assert(skipped_here@.contains(i as usize));
                        }
                        if skipped_here@.len() > 0 {
                            assert(masked_at(streams, ev, skipped_here@[0] as int));
                        }
                    }
                    let succs = e.immediate_successors();
                    for k in 0..succs.len()
                        invariant
                            sq == sequences@,
                            streams == filtered_streams_of(sq),
                            sv == start.start_indices@,
                            dims == sv.len(),
                            dims <= sq.len(),
                            ev == e.start_indices@,
                            ev.len() == dims,
                            skips_in(sq, sv, ev, depth),
                            forall|i: int| 0 <= i < ev.len() ==> ev[i] < usize::MAX,
                            succs@.len() == ev.len(),
                            forall|m: int| 0 <= m < succs@.len() ==> #[trigger] succs@[m].start_indices@ == ev.update(m, (ev[m] + 1) as usize),
                            forall|m: int| 0 <= m < skipped_here@.len() ==> masked_at(streams, ev, #[trigger] skipped_here@[m] as int),
                            forall|i: int| #[trigger] masked_at(streams, ev, i) ==> skipped_here@.contains(i as usize),
                            e_skipped == position_skipped(streams, ev),
                            next0.len() <= next@.len(),
                            forall|i: int| 0 <= i < next0.len() ==> next@[i] == next0[i],
                            valid0.len() <= valid@.len(),
                            forall|i: int| 0 <= i < valid0.len() ==> valid@[i] == valid0[i],
                            forall|m: int| 0 <= m < next@.len() ==> #[trigger] skips_in(sq, sv, next@[m].start_indices@, depth + 1),
                            forall|m: int| 0 <= m < valid@.len() ==> finds(sq, sv, #[trigger] valid@[m].start_indices@),
                            forall|m: int| 0 <= m < k ==> (#[trigger] skip_step(sq, ev, succs@[m].start_indices@) ==> exists|i: int|
                                0 <= i < next@.len() && next@[i].start_indices@ == succs@[m].start_indices@),
                            forall|m: int| 0 <= m < k ==> (#[trigger] found_step(sq, ev, succs@[m].start_indices@) ==> exists|i: int|
                                0 <= i < valid@.len() && valid@[i].start_indices@ == succs@[m].start_indices@),
                    {
                        let s = &succs[k];
                        let ghost xv = s.start_indices@;
                        proof {
                            assert(next_position(ev, xv));
                        }
                        if self.in_range(s, sequences) {
                            if self.is_skipped(s, sequences) {
                                let moved = moves_some(&skipped_here, e, s);
                                proof {
                                    if moved {
                                        let m = choose|m: int| 0 <= m < skipped_here@.len() && ev[#[trigger] skipped_here@[m] as int] != xv[skipped_here@[m] as int];
                                        assert(masked_at(streams, ev, skipped_here@[m] as int));
                                    } else if e_skipped {
                                        assert forall|i: int| #[trigger] masked_at(streams, ev, i) implies xv[i] == ev[i] by {
                                            let m = choose|m: int| 0 <= m < skipped_here@.len() && skipped_here@[m] == i as usize;
                                            assert(ev[skipped_here@[m] as int] == xv[skipped_here@[m] as int]);
                                        }
                                    }
                                }
                                if !e_skipped || moved {
                                    let ghost before = next@;
                                    next.push(copy_start_position(s));
                                    proof {
                                        assert(skip_step(sq, ev, xv));
                                        lemma_skips_extend(sq, sv, ev, xv, depth);
                                        assert(next@[next@.len() - 1].start_indices@ == xv);
                                        assert forall|m: int| 0 <= m < next@.len() implies #[trigger] skips_in(sq, sv, next@[m].start_indices@, depth + 1) by {
                                            if m < before.len() {
                                                assert(next@[m] == before[m]);
                                            }
                                        }
                                        assert forall|m: int| 0 <= m < k + 1 implies (#[trigger] skip_step(sq, ev, succs@[m].start_indices@) ==> exists|i: int|
                                            0 <= i < next@.len() && next@[i].start_indices@ == succs@[m].start_indices@) by {
                                            if m < k && skip_step(sq, ev, succs@[m].start_indices@) {
                                                let i = choose|i: int| 0 <= i < before.len() && before[i].start_indices@ == succs@[m].start_indices@;
                                                assert(next@[i] == before[i]);
                                            }
                                        }
                                    }
                                } else {
                                    proof {
                                        assert(!skip_step(sq, ev, xv));
                                    }
                                }
                                proof {
                                    assert(!found_step(sq, ev, xv));
                                }
                            } else {
                                let ghost before = valid@;
                                valid.push(copy_start_position(s));
                                proof {
                                    assert(found_step(sq, ev, xv));
                                    assert(finds_in(sq, ev, xv, 0));
                                    lemma_skips_then_finds(sq, sv, ev, xv, depth, 0);
                                    assert(finds(sq, sv, xv));
                                    assert(valid@[valid@.len() - 1].start_indices@ == xv);
                                    assert forall|m: int| 0 <= m < valid@.len() implies finds(sq, sv, #[trigger] valid@[m].start_indices@) by {
                                        if m < before.len() {
                                            assert(valid@[m] == before[m]);
                                        }
                                    }
                                    assert forall|m: int| 0 <= m < k + 1 implies (#[trigger] found_step(sq, ev, succs@[m].start_indices@) ==> exists|i: int|
                                        0 <= i < valid@.len() && valid@[i].start_indices@ == succs@[m].start_indices@) by {
                                        if m < k && found_step(sq, ev, succs@[m].start_indices@) {
                                            let i = choose|i: int| 0 <= i < before.len() && before[i].start_indices@ == succs@[m].start_indices@;
                                            assert(valid@[i] == before[i]);
                                        }
                                    }
                                    assert(!skip_step(sq, ev, xv));
                                }
                            }
                        } else {
                            proof {
                                assert(!skip_step(sq, ev, xv));
                                assert(!found_step(sq, ev, xv));
                            }
                        }
                    }
                    proof {
                        assert forall|x: Seq<usize>| #[trigger] skip_step(sq, ev, x) implies exists|i: int|
                            0 <= i < next@.len() && next@[i].start_indices@ == x by {
                            let kk = choose|kk: int| 0 <= kk < ev.len() && x == #[trigger] ev.update(kk, (ev[kk] + 1) as usize);
                            assert(succs@[kk].start_indices@ == x);
                        }
                        assert forall|x: Seq<usize>| #[trigger] found_step(sq, ev, x) implies exists|i: int|
                            0 <= i < valid@.len() && valid@[i].start_indices@ == x by {
                            let kk = choose|kk: int| 0 <= kk < ev.len() && x == #[trigger] ev.update(kk, (ev[kk] + 1) as usize);
                            assert(succs@[kk].start_indices@ == x);
                        }
                    }
                } else {
                    proof {
                        assert forall|x: Seq<usize>| #[trigger] skip_step(sq, ev, x) implies exists|i: int|
                            0 <= i < next@.len() && next@[i].start_indices@ == x by {
                            assert(!next_position(ev, x));
                        }
                        assert forall|x: Seq<usize>| #[trigger] found_step(sq, ev, x) implies exists|i: int|
                            0 <= i < valid@.len() && valid@[i].start_indices@ == x by {
                            assert(!next_position(ev, x));
                        }
                    }
                }
                proof {
                    assert forall|m: int, x: Seq<usize>| 0 <= m < j + 1 && #[trigger] skip_step(sq, layer@[m].start_indices@, x) implies exists|i: int|
                        0 <= i < next@.len() && next@[i].start_indices@ == x by {
                        if m == j {
                            assert(layer@[m].start_indices@ == ev);
                        } else {
                            let i = choose|i: int| 0 <= i < next0.len() && next0[i].start_indices@ == x;
                            assert(next@[i] == next0[i]);
                        }
                    }
                    assert forall|m: int, x: Seq<usize>| 0 <= m < j + 1 && #[trigger] found_step(sq, layer@[m].start_indices@, x) implies exists|i: int|
                        0 <= i < valid@.len() && valid@[i].start_indices@ == x by {
                        if m == j {
                            assert(layer@[m].start_indices@ == ev);
                        } else {
                            let i = choose|i: int| 0 <= i < valid0.len() && valid0[i].start_indices@ == x;
                            assert(valid@[i] == valid0[i]);
                        }
                    }
                    assert forall|q: Seq<usize>, n: nat| n < depth && #[trigger] finds_in(sq, sv, q, n) implies exists|i: int|
                        0 <= i < valid@.len() && valid@[i].start_indices@ == q by {
                        let i = choose|i: int| 0 <= i < valid0.len() && valid0[i].start_indices@ == q;
                        assert(valid@[i] == valid0[i]);
                    }
                }
            }
            proof {
                assert forall|q: Seq<usize>, n: nat| n < depth + 1 && #[trigger] finds_in(sq, sv, q, n) implies exists|i: int|
                    0 <= i < valid@.len() && valid@[i].start_indices@ == q by {
                    if n == depth {
                        lemma_finds_split(sq, sv, q, n, depth);
                        let e = choose|e: Seq<usize>| #[trigger] skips_in(sq, sv, e, depth) && finds_in(sq, e, q, (n - depth) as nat);
                        let m = choose|m: int| 0 <= m < layer@.len() && layer@[m].start_indices@ == e;
                        assert(finds_in(sq, e, q, 0));
                        assert(found_step(sq, layer@[m].start_indices@, q));
                    }
                }
                assert forall|x: Seq<usize>| #[trigger] skips_in(sq, sv, x, depth + 1) implies exists|i: int|
                    0 <= i < next@.len() && next@[i].start_indices@ == x by {
                    lemma_skips_last(sq, sv, x, depth);
                    let e = choose|e: Seq<usize>| #[trigger] skips_in(sq, sv, e, depth) && skip_step(sq, e, x);
                    let m = choose|m: int| 0 <= m < layer@.len() && layer@[m].start_indices@ == e;
                    assert(skip_step(sq, layer@[m].start_indices@, x));
                }
                if next@.len() > 0 {
                    lemma_skips_weight(sq, sv, next@[0].start_indices@, depth + 1);
                    lemma_capped_sum_bound(next@[0].start_indices@, streams, dims);
                }
            }
            layer = next;
            proof {
                depth = depth + 1;
            }
        }
        proof {
            assert forall|q: Seq<usize>| #[trigger] finds(sq, sv, q) implies exists|j: int|
                0 <= j < valid@.len() && valid@[j].start_indices@ == q by {
                let n = choose|n: nat| #[trigger] finds_in(sq, sv, q, n);
                if n >= depth {
                    lemma_finds_split(sq, sv, q, n, depth);
                    let e = choose|e: Seq<usize>| #[trigger] skips_in(sq, sv, e, depth) && finds_in(sq, e, q, (n - depth) as nat);
                    let m = choose|m: int| 0 <= m < layer@.len() && layer@[m].start_indices@ == e;
                }
            }
        }
        valid
    }
}

/// The start position with index one in dimension `k` and zero elsewhere.
pub open spec fn unit_position(dims: nat, k: int) -> Seq<usize> {
    Seq::new(dims, |i: int| 0usize).update(k, 1usize)
}

/// The intervals reported for a configuration.
fn filtered_intervals_of(c: &FilteredPatternMatchingAutomataConfiguration) -> (r: Vec<MatchingInterval>)
    requires
        c.matching_begin@.len() == c.input_sequence@.len(),
    ensures
        r@ == report_of(c@).0,
{
    let mut r: Vec<MatchingInterval> = Vec::new();
    for i in 0..c.input_sequence.len()
        invariant
            c.matching_begin@.len() == c.input_sequence@.len(),
            r@ == report_of(c@).0.subrange(0, i as int),
    {
        let pos = c.input_sequence[i].start;
        let end = if pos == 0 {
            usize::MAX
        } else {
            pos - 1
        };
        r.push(MatchingInterval { start: c.matching_begin[i], end });
        assert(r@ =~= report_of(c@).0.subrange(0, i + 1));
    }
    assert(r@ =~= report_of(c@).0);
    r
}

/// `e` is the matching of a configuration valid for the streams, at a
/// final state, for the words `ids`.
pub open spec fn sound_filtered_report(
    aut: Automata<(String, usize)>,
    streams: Seq<Seq<Option<Seq<char>>>>,
    ids: Seq<usize>,
    e: MatchingReport,
) -> bool {
    exists|c: ConfigView| filtered_valid(aut, streams, c) && aut.final_at(c.0 as int) && c.3 == ids && e == #[trigger] report_of(c)
}

/// The naive hyper pattern matching over filtered streams, for one fixed
/// assignment of words to the variables: it runs the automaton from start
/// positions taken in increasing lexicographic order, passing over those
/// that stand on a masked element, and reports every configuration that
/// reaches a final state.
pub struct NaiveFilteredSingleHyperPatternMatching<'a, Notifier: ResultNotifier> {
    automata_runner: FilteredPatternMatchingAutomataRunner<'a>,
    notifier: Notifier,
    input_streams: Vec<ReadableView>,
    ids: Vec<usize>,
    waiting_queue: Vec<StartPosition>,
    reported: Ghost<Seq<MatchingReport>>,
}

impl<'a, Notifier: ResultNotifier> NaiveFilteredSingleHyperPatternMatching<'a, Notifier> {
    /// The automaton being run.
    pub closed spec fn automaton(&self) -> Automata<(String, usize)> {
        self.automata_runner.automaton()
    }

    /// The current configurations.
    pub closed spec fn configs(&self) -> Seq<ConfigView> {
        self.automata_runner.configs()
    }

    /// Every matching handed to the notifier so far, in order.
    pub closed spec fn reported(&self) -> Seq<MatchingReport> {
        self.reported@
    }

    /// The words the variables stand for.
    pub closed spec fn word_ids(&self) -> Seq<usize> {
        self.ids@
    }

    /// The views on the streams, one per variable.
    pub closed spec fn input_views(&self) -> Seq<ReadableView> {
        self.input_streams@
    }

    /// The start positions still to try, in increasing lexicographic order.
    pub closed spec fn queue(&self) -> Seq<Seq<usize>> {
        queue_view(self.waiting_queue@)
    }

    /// The internal state is consistent.
    pub closed spec fn wf(&self) -> bool {
        let aut = self.automaton();
        &&& aut.wf()
        &&& self.automata_runner.word_ids() == self.ids@
        &&& self.ids@.len() == aut.dimensions
        &&& self.input_streams@.len() == aut.dimensions
        &&& sorted_strict(self.queue())
        &&& forall|j: int| 0 <= j < self.queue().len() ==> (#[trigger] self.queue()[j]).len() == aut.dimensions
        &&& forall|j: int| 0 <= j < self.configs().len() ==> (#[trigger] self.configs()[j]).3 == self.ids@
    }

    /// The configurations and views fit filtered streams with the contents
    /// `streams`.
    pub closed spec fn fits_streams(&self, streams: Seq<Seq<Option<Seq<char>>>>) -> bool {
        &&& self.automata_runner.inv(streams)
        &&& streams.len() == self.automaton().dimensions
        &&& forall|i: int| 0 <= i < self.input_streams@.len() ==> #[trigger] self.input_streams@[i].start <= streams[i].len()
    }

    /// The configurations and views fit the filtered streams `sequences`.
    pub open spec fn fits(&self, sequences: Seq<&AppendOnlySequence<Option<String>>>) -> bool {
        self.fits_streams(filtered_streams_of(sequences))
    }

    /// Streams that only grew still fit.
    pub proof fn lemma_fits_grow(&self, st1: Seq<Seq<Option<Seq<char>>>>, st2: Seq<Seq<Option<Seq<char>>>>)
        requires
            self.wf(),
            self.fits_streams(st1),
            st2.len() == st1.len(),
            forall|i: int| 0 <= i < st1.len() ==> #[trigger] st1[i].len() <= st2[i].len(),
        ensures
            self.fits_streams(st2),
    {
        assert forall|j: int| 0 <= j < self.configs().len() implies filtered_valid(self.automaton(), st2, #[trigger] self.configs()[j]) by {
            lemma_filtered_valid_extend(self.automaton(), st1, st2, self.configs()[j]);
        }
        assert forall|i: int| 0 <= i < self.input_streams@.len() implies #[trigger] self.input_streams@[i].start <= st2[i].len() by {
            assert(self.input_streams@[i].start <= st1[i].len());
        }
    }

    /// A matching over the filtered streams read through `input_streams`,
    /// for the words `ids`: it starts from the first position of each
    /// stream, and its next start positions wait in a queue.
    pub fn new(
        automaton: &'a Automata<(String, usize)>,
        notifier: Notifier,
        input_streams: Vec<ReadableView>,
        ids: Vec<usize>,
    ) -> (r: Self)
        requires
            automaton.wf(),
            automaton.dimensions == ids@.len(),
            automaton.dimensions == input_streams@.len(),
        ensures
            r.wf(),
            r.automaton() == *automaton,
            r.word_ids() == ids@,
            r.reported() == Seq::<MatchingReport>::empty(),
            forall|c: ConfigView| #[trigger] r.configs().contains(c) <==> exists|i: int|
                0 <= i < automaton.initial_states@.len() && c == (
                    #[trigger] automaton.initial_states@[i],
                    starts_of(input_streams@),
                    starts_of(input_streams@),
                    ids@,
                ),
            forall|x: Seq<usize>| #[trigger] r.queue().contains(x) <==> exists|k: int|
                0 <= k < automaton.dimensions && x == #[trigger] unit_position(automaton.dimensions as nat, k),
            forall|st: Seq<Seq<Option<Seq<char>>>>|
                st.len() == automaton.dimensions && (forall|i: int| 0 <= i < st.len() ==> input_streams@[i].start
                    <= #[trigger] st[i].len()) ==> #[trigger] r.fits_streams(st),
    {
        let dims = automaton.dimensions;
        let mut automata_runner = FilteredPatternMatchingAutomataRunner::new(automaton, copy_positions(&ids));
        let mut zeros: Vec<usize> = Vec::new();
        for i in 0..dims
            invariant
                zeros@.len() == i,
                forall|k: int| 0 <= k < i ==> zeros@[k] == 0,
        {
            zeros.push(0);
        }
        let ghost zv = zeros@;
        assert(zv =~= Seq::new(dims as nat, |i: int| 0usize));
        let origin = StartPosition { start_indices: zeros };
        let successors = origin.immediate_successors();
        let mut waiting_queue: Vec<StartPosition> = Vec::new();
        for i in 0..successors.len()
            invariant
                successors@.len() == dims,
                zv == Seq::new(dims as nat, |i: int| 0usize),
                forall|k: int| 0 <= k < successors@.len() ==> #[trigger] successors@[k].start_indices@ == zv.update(k, (zv[k] + 1) as usize),
                sorted_strict(queue_view(waiting_queue@)),
                forall|x: Seq<usize>| #[trigger] queue_view(waiting_queue@).contains(x) <==> exists|k: int|
                    0 <= k < i && x == #[trigger] unit_position(dims as nat, k),
        {
            let p = copy_start_position(&successors[i]);
            let ghost before = queue_view(waiting_queue@);
            insert_position(&mut waiting_queue, p);
            proof {
                assert forall|x: Seq<usize>| #[trigger] queue_view(waiting_queue@).contains(x) <==> exists|k: int|
                    0 <= k < i + 1 && x == #[trigger] unit_position(dims as nat, k) by {
                    if x == p.start_indices@ {
                        assert(x == unit_position(dims as nat, i as int));
                    }
                    if exists|k: int| 0 <= k < i + 1 && x == #[trigger] unit_position(dims as nat, k) {
                        let k = choose|k: int| 0 <= k < i + 1 && x == #[trigger] unit_position(dims as nat, k);
                        if k == i {
                            assert(x == p.start_indices@);
                        }
                    }
                }
            }
        }
        let ghost init = automaton.initial_states@;
        automata_runner.insert_from_initial_states(copy_views(&input_streams));
        let r = Self {
            automata_runner,
            notifier,
            input_streams,
            ids,
            waiting_queue,
            reported: Ghost(Seq::empty()),
        };
        proof {
            assert forall|j: int| 0 <= j < r.queue().len() implies (#[trigger] r.queue()[j]).len() == dims by {
                assert(r.queue().contains(r.queue()[j]));
            }
            assert forall|j: int| 0 <= j < r.configs().len() implies (#[trigger] r.configs()[j]).3 == r.ids@ by {
                assert(r.configs().contains(r.configs()[j]));
            }
            assert forall|c: ConfigView| #[trigger] r.configs().contains(c) <==> exists|i: int|
                0 <= i < automaton.initial_states@.len() && c == (
                    #[trigger] automaton.initial_states@[i],
                    starts_of(input_streams@),
                    starts_of(input_streams@),
                    ids@,
                ) by {}
            assert forall|st: Seq<Seq<Option<Seq<char>>>>|
                st.len() == dims && (forall|i: int| 0 <= i < st.len() ==> input_streams@[i].start
                    <= #[trigger] st[i].len()) implies #[trigger] r.fits_streams(st) by {
                assert forall|j: int| 0 <= j < r.configs().len() implies filtered_valid(*automaton, st, #[trigger] r.configs()[j]) by {
                    assert(r.configs().contains(r.configs()[j]));
                    let i = choose|i: int| 0 <= i < automaton.initial_states@.len() && r.configs()[j] == (
                        #[trigger] automaton.initial_states@[i],
                        starts_of(input_streams@),
                        starts_of(input_streams@),
                        ids@,
                    );
                    assert(automaton.initial_states@.contains(automaton.initial_states@[i]));
                    assert forall|m: int| 0 <= m < r.configs()[j].1.len() implies #[trigger] r.configs()[j].1[m] <= st[m].len() by {
                        assert(starts_of(input_streams@)[m] == input_streams@[m].start);
                    }
                }
            }
        }
        r
    }

    /// The number of variables.
    pub fn dimensions(&self) -> (r: usize)
        requires
            self.wf(),
        ensures
            r == self.word_ids().len(),
    {
        self.ids.len()
    }

    /// The word of `variable`, if there is such a variable.
    pub fn get_id(&self, variable: usize) -> (r: Option<usize>)
        ensures
            r == if variable < self.word_ids().len() {
                Some(self.word_ids()[variable as int])
            } else {
                None
            },
    {
        if variable < self.ids.len() {
            Some(self.ids[variable])
        } else {
            None
        }
    }

    /// The view on the stream of `variable`.
    pub fn get_input_stream(&self, variable: usize) -> (r: &ReadableView)
        requires
            self.wf(),
            variable < self.word_ids().len(),
        ensures
            *r == self.input_views()[variable as int],
    {
        &self.input_streams[variable]
    }

    /// Hands every configuration at a final state to the notifier.
    fn report_finals(&mut self, sequences: &Vec<&AppendOnlySequence<Option<String>>>)
        requires
            old(self).wf(),
            old(self).fits(sequences@),
        ensures
            final(self).wf(),
            final(self).fits(sequences@),
            final(self).automata_runner == old(self).automata_runner,
            final(self).input_streams == old(self).input_streams,
            final(self).ids == old(self).ids,
            final(self).waiting_queue == old(self).waiting_queue,
            final(self).reported() == old(self).reported() + reports_of(keep_final(old(self).automaton(), old(self).configs())),
    {
        let ghost aut = self.automaton();
        let ghost cs = self.configs();
        let ghost streams = filtered_streams_of(sequences@);
        proof {
            assert forall|j: int| 0 <= j < cs.len() implies (#[trigger] cs[j]).0 < aut.num_states() by {
                assert(filtered_valid(aut, streams, cs[j]));
            }
        }
        let finals = self.automata_runner.get_final_configurations();
        let ghost start = self.reported@;
        proof {
            assert forall|j: int| 0 <= j < finals@.len() implies (#[trigger] finals@[j]).matching_begin@.len() == finals@[j].input_sequence@.len() by {
                let x = finals@[j]@;
                assert(finals@.map_values(|c: &FilteredPatternMatchingAutomataConfiguration| c@)[j] == x);
                assert(keep_final(aut, cs).contains(x));
                lemma_keep_final_contains(aut, cs, x);
                let m = choose|m: int| 0 <= m < cs.len() && cs[m] == x;
                assert(filtered_valid(aut, streams, cs[m]));
                assert(starts_of(finals@[j].input_sequence@).len() == finals@[j].input_sequence@.len());
            }
        }
        let ghost runner0 = self.automata_runner;
        let ghost views0 = self.input_streams;
        let ghost ids0 = self.ids;
        let ghost queue0 = self.waiting_queue;
        for i in 0..finals.len()
            invariant
                self.automata_runner == runner0,
                self.input_streams == views0,
                self.ids == ids0,
                self.waiting_queue == queue0,
                finals@.map_values(|c: &FilteredPatternMatchingAutomataConfiguration| c@) == keep_final(aut, cs),
                self.reported@ == start + reports_of(keep_final(aut, cs).subrange(0, i as int)),
                forall|j: int| 0 <= j < finals@.len() ==> (#[trigger] finals@[j]).matching_begin@.len() == finals@[j].input_sequence@.len(),
        {
            let c = finals[i];
            let intervals = filtered_intervals_of(c);
            self.notifier.notify(intervals.as_slice(), c.ids.as_slice());
            proof {
                assert(keep_final(aut, cs)[i as int] == c@);
                self.reported@ = self.reported@.push(report_of(c@));
                assert(reports_of(keep_final(aut, cs).subrange(0, i + 1)) =~= reports_of(keep_final(aut, cs).subrange(0, i as int)).push(report_of(c@)));
            }
        }
        proof {
            assert(keep_final(aut, cs).subrange(0, finals@.len() as int) =~= keep_final(aut, cs));
        }
    }
}

/// A search from `p` only finds positions after `p`, with as many indices.
proof fn lemma_finds_after(sequences: Seq<&AppendOnlySequence<Option<String>>>, p: Seq<usize>, q: Seq<usize>, n: nat)
    requires
        finds_in(sequences, p, q, n),
    ensures
        q.len() == p.len(),
        lex_less(p, q),
    decreases n,
{
    if n == 0 {
        let k = choose|k: int| 0 <= k < p.len() && q == #[trigger] p.update(k, (p[k] + 1) as usize);
        lemma_lex_increment(p, k);
    } else {
        let e = choose|e: Seq<usize>| #[trigger] skip_step(sequences, p, e) && finds_in(sequences, e, q, (n - 1) as nat);
        let k = choose|k: int| 0 <= k < p.len() && e == #[trigger] p.update(k, (p[k] + 1) as usize);
        lemma_lex_increment(p, k);
        lemma_finds_after(sequences, e, q, (n - 1) as nat);
        lemma_lex_transitive(p, e, q, 0);
    }
}

/// The sequences made of `s` followed by a value below `v`.
pub open spec fn extend_below(s: Set<Seq<usize>>, v: nat) -> Set<Seq<usize>>
    decreases v,
{
    if v == 0 {
        Set::empty()
    } else {
        extend_below(s, (v - 1) as nat).union(s.map(|x: Seq<usize>| x.push((v - 1) as usize)))
    }
}

/// The sequences whose `i`-th value lies below `lens[i]`.
pub open spec fn bounded_positions(lens: Seq<nat>) -> Set<Seq<usize>>
    decreases lens.len(),
{
    if lens.len() == 0 {
        set![Seq::<usize>::empty()]
    } else {
        extend_below(bounded_positions(lens.drop_last()), lens.last())
    }
}

proof fn lemma_extend_below(s: Set<Seq<usize>>, v: nat)
    requires
        s.finite(),
        v <= usize::MAX + 1,
    ensures
        extend_below(s, v).finite(),
        forall|y: Seq<usize>| #[trigger] extend_below(s, v).contains(y) <==> (y.len() >= 1 && s.contains(y.drop_last())
            && y.last() < v),
    decreases v,
{
    if v > 0 {
        lemma_extend_below(s, (v - 1) as nat);
        let f = |x: Seq<usize>| x.push((v - 1) as usize);
        s.lemma_map_finite(f);
        assert forall|y: Seq<usize>| #[trigger] extend_below(s, v).contains(y) <==> (y.len() >= 1 && s.contains(y.drop_last())
            && y.last() < v) by {
            if s.map(f).contains(y) {
                let x = choose|x: Seq<usize>| s.contains(x) && f(x) == y;
                assert(y.drop_last() =~= x);
            }
            if y.len() >= 1 && s.contains(y.drop_last()) && y.last() == v - 1 {
                assert(f(y.drop_last()) =~= y);
                assert(s.map(f).contains(y));
            }
        }
    }
}

/// The positions bounded by `lens` form a finite set.
proof fn lemma_bounded_positions(lens: Seq<nat>)
    requires
        forall|i: int| 0 <= i < lens.len() ==> #[trigger] lens[i] <= usize::MAX,
    ensures
        bounded_positions(lens).finite(),
        forall|y: Seq<usize>| #[trigger] bounded_positions(lens).contains(y) <==> (y.len() == lens.len()
            && forall|i: int| 0 <= i < lens.len() ==> y[i] < lens[i]),
    decreases lens.len(),
{
    if lens.len() == 0 {
        assert forall|y: Seq<usize>| #[trigger] bounded_positions(lens).contains(y) <==> (y.len() == lens.len()
            && forall|i: int| 0 <= i < lens.len() ==> y[i] < lens[i]) by {
            if y.len() == 0 {
                assert(y =~= Seq::<usize>::empty());
            }
        }
    } else {
        let pre = lens.drop_last();
        lemma_bounded_positions(pre);
        lemma_extend_below(bounded_positions(pre), lens.last());
        assert forall|y: Seq<usize>| #[trigger] bounded_positions(lens).contains(y) <==> (y.len() == lens.len()
            && forall|i: int| 0 <= i < lens.len() ==> y[i] < lens[i]) by {
            if y.len() == lens.len() && forall|i: int| 0 <= i < lens.len() ==> y[i] < lens[i] {
                assert forall|i: int| 0 <= i < pre.len() implies y.drop_last()[i] < pre[i] by {
                    assert(y.drop_last()[i] == y[i]);
                }
                assert(y.last() == y[y.len() - 1]);
            }
            if bounded_positions(lens).contains(y) {
                assert forall|i: int| 0 <= i < lens.len() implies y[i] < lens[i] by {
                    if i < lens.len() - 1 {
                        assert(y.drop_last()[i] == y[i]);
                    }
                }
            }
        }
    }
}

/// The lengths of the first `dims` streams.
pub open spec fn stream_lens(streams: Seq<Seq<Option<Seq<char>>>>, dims: nat) -> Seq<nat> {
    Seq::new(dims, |i: int| streams[i].len())
}

/// `x` is not a start position that can be tried: it lies out of range or
/// stands on a masked element.
pub open spec fn untried(sequences: Seq<&AppendOnlySequence<Option<String>>>, x: Seq<usize>) -> bool {
    !(position_in_range(sequences, x) && !position_skipped(filtered_streams_of(sequences), x))
}

/// The positions of the queue that cannot be tried.
pub open spec fn untried_set(sequences: Seq<&AppendOnlySequence<Option<String>>>, q: Seq<Seq<usize>>) -> Set<Seq<usize>> {
    q.to_set().filter(|x: Seq<usize>| untried(sequences, x))
}

proof fn lemma_untried_set_finite(sequences: Seq<&AppendOnlySequence<Option<String>>>, q: Seq<Seq<usize>>)
    ensures
        untried_set(sequences, q).finite(),
        untried_set(sequences, q).len() <= q.len(),
{
    q.to_set().lemma_len_filter(|x: Seq<usize>| untried(sequences, x));
    q.lemma_cardinality_of_set();
}

/// Every report of `reports` is sound.
pub open spec fn all_sound(
    aut: Automata<(String, usize)>,
    streams: Seq<Seq<Option<Seq<char>>>>,
    ids: Seq<usize>,
    reports: Seq<MatchingReport>,
) -> bool {
    forall|e: MatchingReport| #[trigger] reports.contains(e) ==> sound_filtered_report(aut, streams, ids, e)
}

impl<'a, Notifier: ResultNotifier> NaiveFilteredSingleHyperPatternMatching<'a, Notifier> {
    /// Runs the configurations as far as the streams go, reports those at a
    /// final state and drops those that no longer wait for input; with
    /// `drop_masked`, also drops those whose next element is masked.
    fn settle(&mut self, sequences: &Vec<&AppendOnlySequence<Option<String>>>, drop_masked: bool)
        requires
            old(self).wf(),
            old(self).fits(sequences@),
        ensures
            final(self).wf(),
            final(self).fits(sequences@),
            final(self).automaton() == old(self).automaton(),
            final(self).word_ids() == old(self).word_ids(),
            final(self).input_views() == old(self).input_views(),
            final(self).queue() == old(self).queue(),
            old(self).reported().len() <= final(self).reported().len(),
            final(self).reported().subrange(0, old(self).reported().len() as int) == old(self).reported(),
            all_sound(
                final(self).automaton(),
                filtered_streams_of(sequences@),
                final(self).word_ids(),
                final(self).reported().subrange(old(self).reported().len() as int, final(self).reported().len() as int),
            ),
            forall|c: ConfigView|
                filtered_derivable(final(self).automaton(), filtered_streams_of(sequences@), old(self).configs(), c)
                    && final(self).automaton().final_at(c.0 as int) ==> #[trigger] final(self).reported().subrange(
                    old(self).reported().len() as int,
                    final(self).reported().len() as int,
                ).contains(report_of(c)),
            forall|c: ConfigView| old(self).configs().contains(c) && crate::filtered_pattern_matching_automata_runner::filtered_waiting(sequences@, c)
                && !drop_masked ==> #[trigger] final(self).configs().contains(c),
            exists|cs: Seq<ConfigView>|
                #[trigger] step_of(final(self).automaton(), filtered_streams_of(sequences@), old(self).configs(), cs)
                    && final(self).reported() == old(self).reported() + reports_of(keep_final(final(self).automaton(), cs)),
    {
        let ghost aut = self.automaton();
        let ghost streams = filtered_streams_of(sequences@);
        let ghost old_configs = self.configs();
        let ghost before = *self;
        let ghost ids = self.ids@;
        self.automata_runner.consume(sequences);
        let ghost c1 = self.configs();
        proof {
            assert forall|j: int| 0 <= j < c1.len() implies (#[trigger] c1[j]).3 == ids by {
                assert(c1.contains(c1[j]));
                assert(filtered_derivable(aut, streams, old_configs, c1[j]));
                let (c0, n0) = choose|c0: ConfigView, n0: nat| old_configs.contains(c0) && #[trigger] filtered_derives(aut, streams, c0, c1[j], n0);
                lemma_filtered_derives_keeps(aut, streams, c0, c1[j], n0);
                let m = choose|m: int| 0 <= m < old_configs.len() && old_configs[m] == c0;
            }
        }
        self.report_finals(sequences);
        proof {
            assert forall|j: int| 0 <= j < c1.len() implies (#[trigger] c1[j]).1.len() <= sequences@.len() by {
                assert(filtered_valid(aut, streams, c1[j]));
            }
        }
        self.automata_runner.remove_non_waiting_configurations(sequences);
        proof {
            lemma_keep_filtered_waiting(sequences@, c1);
            assert forall|j: int| 0 <= j < self.configs().len() implies filtered_valid(aut, streams, #[trigger] self.configs()[j])
                && self.configs()[j].3 == ids by {
                let x = self.configs()[j];
                assert(self.configs().contains(x));
                let m = choose|m: int| 0 <= m < c1.len() && c1[m] == x;
            }
        }
        let ghost c2 = self.configs();
        if drop_masked {
            proof {
                assert forall|j: int| 0 <= j < c2.len() implies (#[trigger] c2[j]).1.len() <= sequences@.len() by {
                    assert(filtered_valid(aut, streams, c2[j]));
                }
            }
            self.automata_runner.remove_masked_configurations(sequences);
            proof {
                lemma_drop_filtered_masked(streams, c2);
                assert forall|j: int| 0 <= j < self.configs().len() implies filtered_valid(aut, streams, #[trigger] self.configs()[j])
                    && self.configs()[j].3 == ids by {
                    let x = self.configs()[j];
                    assert(self.configs().contains(x));
                    let m = choose|m: int| 0 <= m < c2.len() && c2[m] == x;
                }
            }
        }
        proof {
            let new_part = self.reported().subrange(before.reported().len() as int, self.reported().len() as int);
            assert(new_part =~= reports_of(keep_final(aut, c1)));
            assert(self.reported().subrange(0, before.reported().len() as int) =~= before.reported());
            assert forall|e: MatchingReport| #[trigger] new_part.contains(e) implies sound_filtered_report(aut, streams, ids, e) by {
                let m = choose|m: int| 0 <= m < new_part.len() && new_part[m] == e;
                let x = keep_final(aut, c1)[m];
                assert(keep_final(aut, c1).contains(x));
                lemma_keep_final_contains(aut, c1, x);
                let j = choose|j: int| 0 <= j < c1.len() && c1[j] == x;
                assert(filtered_valid(aut, streams, c1[j]));
                assert(e == report_of(x));
            }
            assert forall|c: ConfigView| filtered_derivable(aut, streams, old_configs, c) && aut.final_at(c.0 as int)
                implies #[trigger] new_part.contains(report_of(c)) by {
                let (c0, n0) = choose|c0: ConfigView, n0: nat| old_configs.contains(c0) && #[trigger] filtered_derives(aut, streams, c0, c, n0);
                assert(c1.contains(c0));
                lemma_filtered_closed_contains_derived(aut, streams, c1, c0, c, n0);
                lemma_keep_final_contains(aut, c1, c);
                let m = choose|m: int| 0 <= m < keep_final(aut, c1).len() && keep_final(aut, c1)[m] == c;
                assert(new_part[m] == report_of(c));
            }
            assert forall|c: ConfigView| old_configs.contains(c) && crate::filtered_pattern_matching_automata_runner::filtered_waiting(sequences@, c)
                && !drop_masked implies #[trigger] self.configs().contains(c) by {
                assert(c1.contains(c));
            }
            assert forall|c: ConfigView| #[trigger] c1.contains(c) <==> filtered_derivable(aut, streams, old_configs, c) by {
                if filtered_derivable(aut, streams, old_configs, c) {
                    let (c0, n0) = choose|c0: ConfigView, n0: nat| old_configs.contains(c0) && #[trigger] filtered_derives(aut, streams, c0, c, n0);
                    assert(c1.contains(c0));
                    lemma_filtered_closed_contains_derived(aut, streams, c1, c0, c, n0);
                }
            }
            assert(self.reported() =~= before.reported() + reports_of(keep_final(aut, c1)));
            assert(step_of(aut, streams, old_configs, c1));
        }
    }
}

/// A start position found by a search can be tried.
proof fn lemma_found_tried(sequences: Seq<&AppendOnlySequence<Option<String>>>, p: Seq<usize>, q: Seq<usize>, n: nat)
    requires
        finds_in(sequences, p, q, n),
    ensures
        !untried(sequences, q),
    decreases n,
{
    if n > 0 {
        let e = choose|e: Seq<usize>| #[trigger] skip_step(sequences, p, e) && finds_in(sequences, e, q, (n - 1) as nat);
        lemma_found_tried(sequences, e, q, (n - 1) as nat);
    }
}

/// Where a matching from the start position `p` begins on each variable:

/// `cs` lists, each once, the configurations reached from `start` by
/// transitions over the filtered streams `streams`.
pub open spec fn step_of(
    aut: Automata<(String, usize)>,
    streams: Seq<Seq<Option<Seq<char>>>>,
    start: Seq<ConfigView>,
    cs: Seq<ConfigView>,
) -> bool {
    &&& distinct(cs)
    &&& forall|c: ConfigView| #[trigger] cs.contains(c) <==> filtered_derivable(aut, streams, start, c)
}

/// `cs` lists, each once, the configurations reached by transitions over
/// the filtered streams `streams` from those at an initial state of `aut`
/// whose matching begins at `starts`.
pub open spec fn trial_step_of(
    aut: Automata<(String, usize)>,
    streams: Seq<Seq<Option<Seq<char>>>>,
    starts: Seq<usize>,
    ids: Seq<usize>,
    cs: Seq<ConfigView>,
) -> bool {
    &&& distinct(cs)
    &&& forall|c: ConfigView| #[trigger] cs.contains(c) <==> filtered_trial_derivable(aut, streams, starts, ids, c)
}

/// `css` and `ps` record a run of the matching: `css[0]` lists the
/// configurations reached from `start`, and `css[i + 1]` those of the trial
/// from the start position `ps[i]`, which is not masked; the start
/// positions come in increasing order.
pub open spec fn trace_of(
    aut: Automata<(String, usize)>,
    streams: Seq<Seq<Option<Seq<char>>>>,
    start: Seq<ConfigView>,
    views: Seq<ReadableView>,
    ids: Seq<usize>,
    css: Seq<Seq<ConfigView>>,
    ps: Seq<Seq<usize>>,
) -> bool {
    &&& css.len() == ps.len() + 1
    &&& step_of(aut, streams, start, css[0])
    &&& forall|i: int| 0 <= i < ps.len() ==> !position_skipped(streams, #[trigger] ps[i])
        && trial_step_of(aut, streams, trial_begins(views, streams, ps[i]), ids, css[i + 1])
    &&& forall|i: int, j: int| 0 <= i < j < ps.len() ==> lex_less(#[trigger] ps[i], #[trigger] ps[j])
}

/// The reports of the configurations at a final state of each step of
/// `css`, step after step.
pub open spec fn step_reports(aut: Automata<(String, usize)>, css: Seq<Seq<ConfigView>>) -> Seq<MatchingReport>
    decreases css.len(),
{
    if css.len() == 0 {
        Seq::empty()
    } else {
        step_reports(aut, css.drop_last()) + reports_of(keep_final(aut, css.last()))
    }
}

/// `p[j]` elements past the view `views[j]`, or the end of the stream.
pub open spec fn trial_begins(views: Seq<ReadableView>, streams: Seq<Seq<Option<Seq<char>>>>, p: Seq<usize>) -> Seq<usize> {
    Seq::new(p.len(), |j: int| advanced(views[j].start, p[j], streams[j].len()))
}

/// `c` is reached by transitions from a configuration at an initial state
/// of `aut` whose matching begins at `starts` over the streams `ids`.
pub open spec fn filtered_trial_derivable(
    aut: Automata<(String, usize)>,
    streams: Seq<Seq<Option<Seq<char>>>>,
    starts: Seq<usize>,
    ids: Seq<usize>,
    c: ConfigView,
) -> bool {
    exists|i: int, n: nat|
        0 <= i < aut.initial_states@.len() && #[trigger] filtered_derives(
            aut,
            streams,
            (aut.initial_states@[i], starts, starts, ids),
            c,
            n,
        )
}

/// The position of a view moved forward by `count` elements of a stream of
/// `len` elements.
pub open spec fn advanced(start: usize, count: usize, len: nat) -> usize {
    if start + count < len {
        (start + count) as usize
    } else {
        len as usize
    }
}

impl<'a, Notifier: ResultNotifier> NaiveFilteredSingleHyperPatternMatching<'a, Notifier> {
    /// Takes the first waiting start position, queues the start positions
    /// that the search finds from it, and, unless it stands on a masked
    /// element, starts a matching from it and settles it.
    fn pop_and_try(&mut self, sequences: &Vec<&AppendOnlySequence<Option<String>>>) -> (p: Ghost<Seq<usize>>)
        requires
            old(self).wf(),
            old(self).fits(sequences@),
            old(self).queue().len() > 0,
        ensures
            final(self).wf(),
            final(self).fits(sequences@),
            final(self).automaton() == old(self).automaton(),
            final(self).word_ids() == old(self).word_ids(),
            final(self).input_views() == old(self).input_views(),
            p@ == old(self).queue()[0],
            forall|x: Seq<usize>| #[trigger] final(self).queue().contains(x) <==> (old(self).queue().drop_first().contains(x)
                || finds(sequences@, p@, x)),
            position_skipped(filtered_streams_of(sequences@), p@) ==> final(self).configs() == old(self).configs()
                && final(self).reported() == old(self).reported(),
            old(self).reported().len() <= final(self).reported().len(),
            final(self).reported().subrange(0, old(self).reported().len() as int) == old(self).reported(),
            all_sound(
                final(self).automaton(),
                filtered_streams_of(sequences@),
                final(self).word_ids(),
                final(self).reported().subrange(old(self).reported().len() as int, final(self).reported().len() as int),
            ),
            !position_skipped(filtered_streams_of(sequences@), p@) && old(self).automaton().initial_states@.len() > 0
                && (exists|i: int| 0 <= i < p@.len() && !(#[trigger] sequences@[i]).is_closed_spec() && p@[i] >= sequences@[i].items().len())
                ==> final(self).configs().len() > 0,
            !position_skipped(filtered_streams_of(sequences@), p@) ==> forall|c: ConfigView|
                #[trigger] filtered_trial_derivable(
                    old(self).automaton(),
                    filtered_streams_of(sequences@),
                    trial_begins(old(self).input_views(), filtered_streams_of(sequences@), p@),
                    old(self).word_ids(),
                    c,
                ) && old(self).automaton().final_at(c.0 as int) ==> final(self).reported().subrange(
                    old(self).reported().len() as int,
                    final(self).reported().len() as int,
                ).contains(report_of(c)),
            !position_skipped(filtered_streams_of(sequences@), p@) && old(self).configs().len() == 0 ==> exists|cs: Seq<ConfigView>|
                #[trigger] trial_step_of(
                    old(self).automaton(),
                    filtered_streams_of(sequences@),
                    trial_begins(old(self).input_views(), filtered_streams_of(sequences@), p@),
                    old(self).word_ids(),
                    cs,
                ) && final(self).reported() == old(self).reported() + reports_of(keep_final(old(self).automaton(), cs)),
    {
        let ghost aut = self.automaton();
        let ghost streams = filtered_streams_of(sequences@);
        let ghost q0 = self.queue();
        let ghost dims = aut.dimensions;
        let p = self.waiting_queue.remove(0);
        let ghost pv = p.start_indices@;
        proof {
            assert(self.queue() =~= q0.drop_first());
            assert(pv == q0[0]);
            assert(pv.len() == dims);
            assert forall|i: int, j: int| 0 <= i < j < self.queue().len() implies lex_less(self.queue()[i], self.queue()[j]) by {
                assert(self.queue()[i] == q0[i + 1] && self.queue()[j] == q0[j + 1]);
            }
            assert forall|j: int| 0 <= j < self.queue().len() implies (#[trigger] self.queue()[j]).len() == dims by {
                assert(self.queue()[j] == q0[j + 1]);
            }
            assert(self.automata_runner == old(self).automata_runner);
            assert(self.configs() == old(self).configs());
        }
        let succs = self.compute_valid_successors(&p, sequences);
        for k in 0..succs.len()
            invariant
                self.wf(),
                self.fits(sequences@),
                self.automaton() == aut,
                dims == aut.dimensions,
                pv.len() == dims,
                streams == filtered_streams_of(sequences@),
                forall|j: int| 0 <= j < succs@.len() ==> finds(sequences@, pv, #[trigger] succs@[j].start_indices@),
                forall|x: Seq<usize>| #[trigger] self.queue().contains(x) <==> (q0.drop_first().contains(x)
                    || exists|j: int| 0 <= j < k && succs@[j].start_indices@ == x),
                self.configs() == old(self).configs(),
                self.reported() == old(self).reported(),
                self.word_ids() == old(self).word_ids(),
                self.input_views() == old(self).input_views(),
        {
            let s = copy_start_position(&succs[k]);
            let ghost sv = s.start_indices@;
            let ghost before = self.queue();
            proof {
                let n = choose|n: nat| #[trigger] finds_in(sequences@, pv, sv, n);
                lemma_finds_after(sequences@, pv, sv, n);
            }
            insert_position(&mut self.waiting_queue, s);
            proof {
                assert forall|j: int| 0 <= j < self.queue().len() implies (#[trigger] self.queue()[j]).len() == dims by {
                    assert(self.queue().contains(self.queue()[j]));
                    if before.contains(self.queue()[j]) {
                        let m = choose|m: int| 0 <= m < before.len() && before[m] == self.queue()[j];
                    }
                }
                assert forall|x: Seq<usize>| #[trigger] self.queue().contains(x) <==> (q0.drop_first().contains(x)
                    || exists|j: int| 0 <= j < k + 1 && succs@[j].start_indices@ == x) by {
                    if exists|j: int| 0 <= j < k + 1 && succs@[j].start_indices@ == x {
                        let j = choose|j: int| 0 <= j < k + 1 && succs@[j].start_indices@ == x;
                        if j < k {
                            assert(before.contains(x));
                        }
                    }
                }
            }
        }
        proof {
            assert forall|x: Seq<usize>| #[trigger] self.queue().contains(x) <==> (q0.drop_first().contains(x)
                || finds(sequences@, pv, x)) by {
                if finds(sequences@, pv, x) {
                    let j = choose|j: int| 0 <= j < succs@.len() && succs@[j].start_indices@ == x;
                }
            }
        }
        if !self.is_skipped(&p, sequences) {
            let mut views: Vec<ReadableView> = Vec::new();
            for i in 0..self.input_streams.len()
                invariant
                    self.wf(),
                    self.fits(sequences@),
                    dims == self.automaton().dimensions,
                    pv == p.start_indices@,
                    pv.len() == dims,
                    views@.len() == i,
                    forall|j: int| 0 <= j < i ==> (#[trigger] views@[j]).start == advanced(
                        self.input_views()[j].start,
                        pv[j],
                        sequences@[j].items().len(),
                    ),
            {
                let mut v = self.input_streams[i];
                v.advance_readable(sequences[i], p.start_indices[i]);
                views.push(v);
            }
            let ghost vs = starts_of(views@);
            let ghost before = *self;
            let ghost init = aut.initial_states@;
            self.automata_runner.insert_from_initial_states(views);
            proof {
                assert forall|j: int| 0 <= j < self.configs().len() implies filtered_valid(aut, streams, #[trigger] self.configs()[j])
                    && self.configs()[j].3 == self.ids@ by {
                    let c = self.configs()[j];
                    assert(self.configs().contains(c));
                    if !before.configs().contains(c) {
                        let i = choose|i: int| 0 <= i < init.len() && c == (#[trigger] init[i], vs, vs, before.word_ids());
                        assert(init[i] < aut.num_states());
                        assert forall|m: int| 0 <= m < c.1.len() implies #[trigger] c.1[m] <= streams[m].len() by {
                            assert(vs[m] == views@[m].start);
                            assert(streams[m].len() == sequences@[m].items().len());
                        }
                    } else {
                        let m = choose|m: int| 0 <= m < before.configs().len() && before.configs()[m] == c;
                    }
                }
                if init.len() > 0 && exists|i: int| 0 <= i < pv.len() && !(#[trigger] sequences@[i]).is_closed_spec() && pv[i] >= sequences@[i].items().len() {
                    let i = choose|i: int| 0 <= i < pv.len() && !(#[trigger] sequences@[i]).is_closed_spec() && pv[i] >= sequences@[i].items().len();
                    let cw = (init[0], vs, vs, before.word_ids());
                    assert(self.configs().contains(cw));
                    assert(vs[i] == views@[i].start);
                    assert(crate::filtered_pattern_matching_automata_runner::filtered_waiting(sequences@, cw));
                }
            }
            let ghost mid = *self;
            self.settle(sequences, false);
            proof {
                assert forall|j: int| 0 <= j < pv.len() implies #[trigger] streams[j].len() == sequences@[j].items().len() by {}
                assert(vs =~= trial_begins(old(self).input_views(), streams, pv));
                assert(mid.reported() == old(self).reported());
                assert forall|c: ConfigView|
                    #[trigger] filtered_trial_derivable(aut, streams, vs, old(self).word_ids(), c) && aut.final_at(c.0 as int)
                    implies self.reported().subrange(old(self).reported().len() as int, self.reported().len() as int).contains(report_of(c)) by {
                    let (i, n) = choose|i: int, n: nat| 0 <= i < init.len() && #[trigger] filtered_derives(aut, streams, (init[i], vs, vs, old(self).word_ids()), c, n);
                    let c0 = (init[i], vs, vs, before.word_ids());
                    assert(mid.configs().contains(c0));
                    assert(filtered_derivable(aut, streams, mid.configs(), c));
                }
                if init.len() > 0 && exists|i: int| 0 <= i < pv.len() && !(#[trigger] sequences@[i]).is_closed_spec() && pv[i] >= sequences@[i].items().len() {
                    let i = choose|i: int| 0 <= i < pv.len() && !(#[trigger] sequences@[i]).is_closed_spec() && pv[i] >= sequences@[i].items().len();
                    let cw = (init[0], vs, vs, before.word_ids());
                    assert(mid.configs().contains(cw));
                    assert(self.configs().contains(cw));
                }
                if old(self).configs().len() == 0 {
                    let cs = choose|cs: Seq<ConfigView>| #[trigger] step_of(aut, streams, mid.configs(), cs)
                        && self.reported() == mid.reported() + reports_of(keep_final(aut, cs));
                    assert forall|c: ConfigView| #[trigger] cs.contains(c) <==> filtered_trial_derivable(aut, streams, vs, old(self).word_ids(), c) by {
                        if cs.contains(c) {
                            let (c0, n0) = choose|c0: ConfigView, n0: nat| mid.configs().contains(c0) && #[trigger] filtered_derives(aut, streams, c0, c, n0);
                            assert(!before.configs().contains(c0));
                            let i = choose|i: int| 0 <= i < init.len() && c0 == (#[trigger] init[i], vs, vs, before.word_ids());
                            assert(filtered_derives(aut, streams, (aut.initial_states@[i], vs, vs, old(self).word_ids()), c, n0));
                        }
                        if filtered_trial_derivable(aut, streams, vs, old(self).word_ids(), c) {
                            let (i, n) = choose|i: int, n: nat| 0 <= i < init.len() && #[trigger] filtered_derives(aut, streams, (init[i], vs, vs, old(self).word_ids()), c, n);
                            let c0 = (init[i], vs, vs, before.word_ids());
                            assert(mid.configs().contains(c0));
                        }
                    }
                    assert(trial_step_of(aut, streams, vs, old(self).word_ids(), cs));
                }
            }
        } else {
            proof {
                assert(self.reported().subrange(0, old(self).reported().len() as int) =~= old(self).reported());
                assert(self.reported().subrange(old(self).reported().len() as int, self.reported().len() as int) =~= Seq::<MatchingReport>::empty());
            }
        }
        Ghost(pv)
    }
}

/// Extending a list of reports keeps its beginning, and the reports after
/// position `n` are those of both extensions.
proof fn lemma_reports_extend(r0: Seq<MatchingReport>, mid: Seq<MatchingReport>, fin: Seq<MatchingReport>, n: int)
    requires
        0 <= n <= mid.len() <= fin.len(),
        mid.subrange(0, n) == r0,
        fin.subrange(0, mid.len() as int) == mid,
    ensures
        fin.subrange(0, n) == r0,
        forall|e: MatchingReport| #[trigger] fin.subrange(n, fin.len() as int).contains(e) <==> (mid.subrange(n, mid.len() as int).contains(e)
            || fin.subrange(mid.len() as int, fin.len() as int).contains(e)),
{
    assert(fin.subrange(0, n) =~= r0) by {
        assert forall|k: int| 0 <= k < n implies fin.subrange(0, n)[k] == r0[k] by {
            assert(fin.subrange(0, mid.len() as int)[k] == mid[k]);
            assert(mid.subrange(0, n)[k] == mid[k]);
        }
    }
    assert forall|e: MatchingReport| #[trigger] fin.subrange(n, fin.len() as int).contains(e) <==> (mid.subrange(n, mid.len() as int).contains(e)
        || fin.subrange(mid.len() as int, fin.len() as int).contains(e)) by {
        if fin.subrange(n, fin.len() as int).contains(e) {
            let k = choose|k: int| 0 <= k < fin.subrange(n, fin.len() as int).len() && fin.subrange(n, fin.len() as int)[k] == e;
            if n + k < mid.len() {
                assert(fin.subrange(0, mid.len() as int)[n + k] == mid[n + k]);
                assert(mid.subrange(n, mid.len() as int)[k] == e);
            } else {
                assert(fin.subrange(mid.len() as int, fin.len() as int)[n + k - mid.len()] == e);
            }
        }
        if mid.subrange(n, mid.len() as int).contains(e) {
            let k = choose|k: int| 0 <= k < mid.subrange(n, mid.len() as int).len() && mid.subrange(n, mid.len() as int)[k] == e;
            assert(fin.subrange(0, mid.len() as int)[n + k] == mid[n + k]);
            assert(fin.subrange(n, fin.len() as int)[k] == e);
        }
        if fin.subrange(mid.len() as int, fin.len() as int).contains(e) {
            let k = choose|k: int| 0 <= k < fin.subrange(mid.len() as int, fin.len() as int).len() && fin.subrange(mid.len() as int, fin.len() as int)[k] == e;
            assert(fin.subrange(n, fin.len() as int)[mid.len() - n + k] == e);
        }
    }
}

/// Positions of a sorted queue after its first one are the positions of
/// the queue other than its first one.
proof fn lemma_queue_rest(q: Seq<Seq<usize>>, x: Seq<usize>)
    requires
        sorted_strict(q),
        q.len() > 0,
    ensures
        q.drop_first().contains(x) <==> (q.contains(x) && x != q[0]),
        q.drop_first().contains(x) ==> lex_less(q[0], x),
{
    if q.drop_first().contains(x) {
        let m = choose|m: int| 0 <= m < q.drop_first().len() && q.drop_first()[m] == x;
        assert(q[m + 1] == x);
        assert(lex_less(q[0], q[m + 1]));
        crate::start_position::lemma_lex_irreflexive(q[0], 0);
    }
    if q.contains(x) && x != q[0] {
        let m = choose|m: int| 0 <= m < q.len() && q[m] == x;
        assert(m != 0);
        assert(q.drop_first()[m - 1] == x);
    }
}

impl<'a, Notifier: ResultNotifier> NaiveFilteredSingleHyperPatternMatching<'a, Notifier> {
    /// Runs the configurations as far as the streams go, reports those at a
    /// final state, and drops those that no longer wait for input or whose
    /// next element is masked; then, as long as no configuration is left,
    /// takes the waiting start positions in increasing lexicographic order:
    /// each queues the start positions found from it and, unless it stands
    /// on a masked element, starts a matching that is run and reported in
    /// the same way.
    pub fn consume_input(&mut self, sequences: &Vec<&AppendOnlySequence<Option<String>>>)
        requires
            old(self).wf(),
            old(self).fits(sequences@),
        ensures
            final(self).wf(),
            final(self).fits(sequences@),
            final(self).automaton() == old(self).automaton(),
            final(self).word_ids() == old(self).word_ids(),
            final(self).input_views() == old(self).input_views(),
            old(self).reported().len() <= final(self).reported().len(),
            final(self).reported().subrange(0, old(self).reported().len() as int) == old(self).reported(),
            all_sound(
                final(self).automaton(),
                filtered_streams_of(sequences@),
                final(self).word_ids(),
                final(self).reported().subrange(old(self).reported().len() as int, final(self).reported().len() as int),
            ),
            forall|c: ConfigView|
                filtered_derivable(final(self).automaton(), filtered_streams_of(sequences@), old(self).configs(), c)
                    && final(self).automaton().final_at(c.0 as int) ==> #[trigger] final(self).reported().subrange(
                    old(self).reported().len() as int,
                    final(self).reported().len() as int,
                ).contains(report_of(c)),
            final(self).configs().len() > 0 || final(self).queue().len() == 0 || final(self).automaton().initial_states@.len() == 0,
            forall|p: Seq<usize>, c: ConfigView|
                old(self).queue().contains(p) && !final(self).queue().contains(p)
                    && !position_skipped(filtered_streams_of(sequences@), p)
                    && #[trigger] filtered_trial_derivable(
                    final(self).automaton(),
                    filtered_streams_of(sequences@),
                    trial_begins(old(self).input_views(), filtered_streams_of(sequences@), p),
                    old(self).word_ids(),
                    c,
                ) && final(self).automaton().final_at(c.0 as int) ==> final(self).reported().subrange(
                    old(self).reported().len() as int,
                    final(self).reported().len() as int,
                ).contains(report_of(c)),
            exists|css: Seq<Seq<ConfigView>>, ps: Seq<Seq<usize>>|
                #[trigger] trace_of(
                    final(self).automaton(),
                    filtered_streams_of(sequences@),
                    old(self).configs(),
                    old(self).input_views(),
                    final(self).word_ids(),
                    css,
                    ps,
                ) && final(self).reported() == old(self).reported() + step_reports(final(self).automaton(), css)
                    && (forall|i: int, y: Seq<usize>| 0 <= i < ps.len() && #[trigger] final(self).queue().contains(y) ==> lex_less(#[trigger] ps[i], y))
                    && (forall|p: Seq<usize>| old(self).queue().contains(p) && !#[trigger] final(self).queue().contains(p)
                        && !position_skipped(filtered_streams_of(sequences@), p) ==> ps.contains(p)),
    {
        let ghost aut = self.automaton();
        let ghost seqs = sequences@;
        let ghost streams = filtered_streams_of(seqs);
        let ghost ids0 = self.word_ids();
        let ghost old_configs = self.configs();
        let ghost r0 = self.reported();
        let ghost n0 = r0.len();
        self.settle(sequences, true);
        let ghost q_init = self.queue();
        let ghost views0 = self.input_views();
        let ghost cs0 = choose|cs: Seq<ConfigView>| #[trigger] step_of(aut, streams, old_configs, cs)
            && self.reported() == r0 + reports_of(keep_final(aut, cs));
        let ghost mut css: Seq<Seq<ConfigView>> = seq![cs0];
        let ghost mut ps: Seq<Seq<usize>> = Seq::empty();
        proof {
            assert(q_init == old(self).queue());
            assert(css.drop_last() =~= Seq::<Seq<ConfigView>>::empty());
            assert(step_reports(aut, css.drop_last()) =~= Seq::<MatchingReport>::empty());
            assert(css.last() == cs0);
            assert(step_reports(aut, css) =~= reports_of(keep_final(aut, cs0)));
            assert(trace_of(aut, streams, old_configs, views0, ids0, css, ps));
        }
        if !self.automata_runner.has_initial_states() {
            return;
        }
        let ghost dims = aut.dimensions as nat;
        let ghost lens = stream_lens(streams, dims);
        let ghost boxset = bounded_positions(lens);
        let ghost mut popped: Set<Seq<usize>> = Set::empty();
        proof {
            crate::filtered_pattern_matching_automata_runner::lemma_filtered_bounded(seqs);
            assert forall|i: int| 0 <= i < lens.len() implies #[trigger] lens[i] <= usize::MAX by {
                assert(streams[i].len() <= usize::MAX);
            }
            lemma_bounded_positions(lens);
        }
        while self.automata_runner.len() == 0
            invariant
                self.wf(),
                self.fits(seqs),
                seqs == sequences@,
                streams == filtered_streams_of(seqs),
                self.automaton() == aut,
                aut == old(self).automaton(),
                ids0 == old(self).word_ids(),
                r0 == old(self).reported(),
                n0 == r0.len(),
                old_configs == old(self).configs(),
                dims == aut.dimensions,
                aut.initial_states@.len() > 0,
                self.word_ids() == ids0,
                self.input_views() == old(self).input_views(),
                lens == stream_lens(streams, dims),
                boxset == bounded_positions(lens),
                boxset.finite(),
                forall|y: Seq<usize>| #[trigger] boxset.contains(y) <==> (y.len() == lens.len()
                    && forall|i: int| 0 <= i < lens.len() ==> y[i] < lens[i]),
                popped.finite(),
                popped.subset_of(boxset),
                forall|x: Seq<usize>, y: Seq<usize>| #[trigger] popped.contains(x) && #[trigger] self.queue().contains(y) ==> lex_less(x, y),
                n0 <= self.reported().len(),
                self.reported().subrange(0, n0 as int) == r0,
                all_sound(aut, streams, ids0, self.reported().subrange(n0 as int, self.reported().len() as int)),
                forall|c: ConfigView| filtered_derivable(aut, streams, old_configs, c) && aut.final_at(c.0 as int)
                    ==> #[trigger] self.reported().subrange(n0 as int, self.reported().len() as int).contains(report_of(c)),
                q_init == old(self).queue(),
                views0 == old(self).input_views(),
                forall|p: Seq<usize>, c: ConfigView|
                    q_init.contains(p) && !self.queue().contains(p) && !position_skipped(streams, p)
                        && #[trigger] filtered_trial_derivable(aut, streams, trial_begins(views0, streams, p), ids0, c)
                        && aut.final_at(c.0 as int)
                        ==> self.reported().subrange(n0 as int, self.reported().len() as int).contains(report_of(c)),
                trace_of(aut, streams, old_configs, views0, ids0, css, ps),
                self.reported() == r0 + step_reports(aut, css),
                forall|i: int, y: Seq<usize>| 0 <= i < ps.len() && #[trigger] self.queue().contains(y) ==> lex_less(#[trigger] ps[i], y),
                forall|p: Seq<usize>| q_init.contains(p) && !#[trigger] self.queue().contains(p) && !position_skipped(streams, p) ==> ps.contains(p),
            decreases 2 * (boxset.len() - popped.len()) + 2 * untried_set(seqs, self.queue()).len()
                + (if self.configs().len() == 0 { 1int } else { 0int }),
        {
            if self.waiting_queue.len() == 0 {
                return;
            }
            proof {
                lemma_len_subset(popped, boxset);
                lemma_untried_set_finite(seqs, self.queue());
            }
            let ghost q0 = self.queue();
            let ghost before = *self;
            let ghost m0 = 2 * (boxset.len() - popped.len()) + 2 * untried_set(seqs, q0).len() + 1;
            let p = self.pop_and_try(sequences);
            proof {
                let pv = p@;
                let q1 = self.queue();
                assert(q0.contains(pv));
                // The queue loses its first position and gains found positions.
                assert forall|x: Seq<usize>| #[trigger] untried_set(seqs, q1).contains(x) <==> untried_set(seqs, q0).remove(pv).contains(x) by {
                    lemma_queue_rest(q0, x);
                    if finds(seqs, pv, x) {
                        let n = choose|n: nat| #[trigger] finds_in(seqs, pv, x, n);
                        lemma_found_tried(seqs, pv, x, n);
                    }
                }
                assert(untried_set(seqs, q1) =~= untried_set(seqs, q0).remove(pv));
                lemma_untried_set_finite(seqs, q0);
                lemma_untried_set_finite(seqs, q1);
                assert(!popped.contains(pv)) by {
                    if popped.contains(pv) {
                        assert(lex_less(pv, pv));
                        crate::start_position::lemma_lex_irreflexive(pv, 0);
                    }
                }
                let new_popped = if boxset.contains(pv) { popped.insert(pv) } else { popped };
                assert forall|x: Seq<usize>, y: Seq<usize>| #[trigger] new_popped.contains(x) && #[trigger] q1.contains(y) implies lex_less(x, y) by {
                    lemma_queue_rest(q0, y);
                    if finds(seqs, pv, y) {
                        let n = choose|n: nat| #[trigger] finds_in(seqs, pv, y, n);
                        lemma_finds_after(seqs, pv, y, n);
                    }
                    if x != pv {
                        assert(popped.contains(x));
                        assert(lex_less(x, pv));
                        crate::start_position::lemma_lex_transitive(x, pv, y, 0);
                    }
                }
                if !untried(seqs, pv) && !boxset.contains(pv) {
                    assert(pv.len() == dims);
                    let i = choose|i: int| 0 <= i < lens.len() && !(pv[i] < lens[i]);
                    assert(!sequences@[i].is_closed_spec());
                    assert(pv[i] >= sequences@[i].items().len());
                    assert(self.configs().len() > 0);
                }
                popped = new_popped;
                lemma_len_subset(popped, boxset);
                // The trace gains the trial from `pv`, unless it was skipped.
                let css0 = css;
                let ps0 = ps;
                assert forall|i: int| 0 <= i < ps0.len() implies lex_less(#[trigger] ps0[i], pv) by {
                    assert(q0.contains(pv));
                }
                if !position_skipped(streams, pv) {
                    let cs = choose|cs: Seq<ConfigView>| #[trigger] trial_step_of(aut, streams, trial_begins(views0, streams, pv), ids0, cs)
                        && self.reported() == before.reported() + reports_of(keep_final(aut, cs));
                    css = css0.push(cs);
                    ps = ps0.push(pv);
                    assert(css.drop_last() =~= css0);
                    assert(self.reported() =~= r0 + step_reports(aut, css));
                    assert forall|i: int| 0 <= i < ps.len() implies !position_skipped(streams, #[trigger] ps[i])
                        && trial_step_of(aut, streams, trial_begins(views0, streams, ps[i]), ids0, css[i + 1]) by {
                        if i < ps0.len() {
                            assert(ps[i] == ps0[i]);
                            assert(css[i + 1] == css0[i + 1]);
                        }
                    }
                    assert forall|i: int, j: int| 0 <= i < j < ps.len() implies lex_less(#[trigger] ps[i], #[trigger] ps[j]) by {
                        if j < ps0.len() {
                            assert(ps[i] == ps0[i] && ps[j] == ps0[j]);
                        } else {
                            assert(ps[i] == ps0[i]);
                        }
                    }
                    assert(trace_of(aut, streams, old_configs, views0, ids0, css, ps));
                }
                assert forall|i: int, y: Seq<usize>| 0 <= i < ps.len() && #[trigger] q1.contains(y) implies lex_less(#[trigger] ps[i], y) by {
                    lemma_queue_rest(q0, y);
                    if finds(seqs, pv, y) {
                        let n = choose|n: nat| #[trigger] finds_in(seqs, pv, y, n);
                        lemma_finds_after(seqs, pv, y, n);
                    }
                    if ps[i] != pv {
                        assert(ps[i] == ps0[i]);
                        assert(lex_less(ps[i], pv));
                        crate::start_position::lemma_lex_transitive(ps[i], pv, y, 0);
                    }
                }
                assert forall|p: Seq<usize>| q_init.contains(p) && !#[trigger] q1.contains(p) && !position_skipped(streams, p) implies ps.contains(p) by {
                    if q0.contains(p) && p != pv {
                        lemma_queue_rest(q0, p);
                    }
                    if p == pv {
                        assert(ps[ps.len() - 1] == pv);
                    } else {
                        assert(ps0.contains(p));
                        let m = choose|m: int| 0 <= m < ps0.len() && ps0[m] == p;
                        assert(ps[m] == p);
                    }
                }
                // Reports stay sound and keep what was reported.
                let mid = before.reported();
                let fin = self.reported();
                lemma_reports_extend(r0, mid, fin, n0 as int);
                assert forall|p: Seq<usize>, c: ConfigView|
                    q_init.contains(p) && !self.queue().contains(p) && !position_skipped(streams, p)
                        && #[trigger] filtered_trial_derivable(aut, streams, trial_begins(views0, streams, p), ids0, c)
                        && aut.final_at(c.0 as int)
                    implies self.reported().subrange(n0 as int, self.reported().len() as int).contains(report_of(c)) by {
                    if q0.contains(p) {
                        if p != pv {
                            lemma_queue_rest(q0, p);
                            assert(self.queue().contains(p));
                        }
                        assert(fin.subrange(mid.len() as int, fin.len() as int).contains(report_of(c)));
                    } else {
                        assert(mid.subrange(n0 as int, mid.len() as int).contains(report_of(c)));
                    }
                }
                        }
        }
    }
}

} // verus!
