use vstd::prelude::*;
use crate::dfa::{DFA, keys_distinct};
use crate::dfa_earliest_pattern_matcher::{DFAEarliestPatternMatcher, match_starts_at, alive_from, lemma_run_extend};
use crate::label::Symbol;
use crate::sequence::{AppendOnlySequence, ReadableView};

verus! {

/// Position `j` of `w` lies inside some match of `d`, that is inside a
/// factor of `w` that `d` accepts.
pub open spec fn covered<S: Symbol, L: Symbol>(d: DFA<S, L>, w: Seq<L::V>, j: int) -> bool {
    exists|i: int, e: int|
        0 <= i <= j <= e < w.len() && #[trigger] d.accepts_word(w.subrange(i, e + 1))
}

/// What the filter outputs at position `j` of `w`: the element if it lies
/// inside a match, and `None` otherwise.
pub open spec fn filtered_at<S: Symbol, L: Symbol>(d: DFA<S, L>, w: Seq<L::V>, j: int) -> Option<L::V> {
    if covered(d, w, j) {
        Some(w[j])
    } else {
        None
    }
}

/// A match that ends at the last position is alive from its start.
pub proof fn lemma_match_alive<S: Symbol, L: Symbol>(d: DFA<S, L>, w: Seq<L::V>, i: int)
    requires
        match_starts_at(d, w, i),
    ensures
        alive_from(d, w, i),
{
}

/// A run that is alive after one more symbol was alive before it.
pub proof fn lemma_alive_before<S: Symbol, L: Symbol>(d: DFA<S, L>, w: Seq<L::V>, a: L::V, i: int)
    requires
        alive_from(d, w.push(a), i),
        i < w.len(),
    ensures
        alive_from(d, w, i),
{
    lemma_run_extend(d, w, a, i);
}

/// Extending the input adds to the covered positions those that lie in a
/// match ending at the new last position.
pub proof fn lemma_covered_extend<S: Symbol, L: Symbol>(d: DFA<S, L>, w: Seq<L::V>, a: L::V, p: int)
    requires
        0 <= p <= w.len(),
    ensures
        covered(d, w.push(a), p) <==> (covered(d, w, p) || exists|i: int|
            0 <= i <= p && #[trigger] match_starts_at(d, w.push(a), i)),
{
    let w2 = w.push(a);
    let n = w.len();
    if covered(d, w2, p) {
        let (i, e) = choose|i: int, e: int|
            0 <= i <= p <= e < w2.len() && #[trigger] d.accepts_word(w2.subrange(i, e + 1));
        if e < n {
            assert(w2.subrange(i, e + 1) =~= w.subrange(i, e + 1));
            assert(covered(d, w, p));
        } else {
            assert(w2.subrange(i, e + 1) =~= w2.subrange(i, w2.len() as int));
            assert(match_starts_at(d, w2, i));
        }
    }
    if covered(d, w, p) {
        let (i, e) = choose|i: int, e: int|
            0 <= i <= p <= e < w.len() && #[trigger] d.accepts_word(w.subrange(i, e + 1));
        assert(w2.subrange(i, e + 1) =~= w.subrange(i, e + 1));
        assert(d.accepts_word(w2.subrange(i, e + 1)));
    }
    if exists|i: int| 0 <= i <= p && #[trigger] match_starts_at(d, w2, i) {
        let i = choose|i: int| 0 <= i <= p && #[trigger] match_starts_at(d, w2, i);
        assert(w2.subrange(i, n + 1 as int) =~= w2.subrange(i, w2.len() as int));
        assert(d.accepts_word(w2.subrange(i, n + 1 as int)));
    }
}

/// Given a stream, replaces by `None` the elements that lie in no match of
/// a pattern and keeps the others as `Some(element)`. An element is output
/// once no run that could still cover it is alive.
pub struct MatchingFilter<S: Symbol, L: Symbol> {
    /// The pattern matcher used to identify matches in the input stream
    matcher: DFAEarliestPatternMatcher<S, L>,
    /// The reading position in the input stream
    input_stream: ReadableView,
    /// The elements read but not decided yet, each with whether it lies in a
    /// match found so far
    temporally_queue: Vec<(L, bool)>,
    /// The filtered stream
    output_stream: AppendOnlySequence<Option<L>>,
}

impl<S: Symbol, L: Symbol> MatchingFilter<S, L> {
    /// The input elements read so far.
    pub closed spec fn consumed(&self) -> Seq<L::V> {
        self.matcher.input()
    }

    /// The pattern.
    pub closed spec fn pattern(&self) -> DFA<S, L> {
        self.matcher.automaton()
    }

    /// The filtered stream produced so far.
    pub closed spec fn output(&self) -> Seq<Option<L::V>> {
        self.output_stream.items_deep()
    }

    /// Whether the filtered stream has been closed.
    pub closed spec fn output_closed(&self) -> bool {
        self.output_stream.is_closed_spec()
    }

    pub closed spec fn inv(&self) -> bool {
        let d = self.matcher.automaton();
        let w = self.matcher.input();
        let out = self.output_stream.items_deep();
        let q = self.temporally_queue.deep_view();
        &&& self.matcher.inv()
        &&& keys_distinct(d.trans_view())
        &&& self.input_stream.start == w.len()
        &&& out.len() + q.len() == w.len()
        &&& forall|j: int| 0 <= j < out.len() ==> #[trigger] out[j] == filtered_at(d, w, j)
        &&& forall|k: int|
            0 <= k < q.len() ==> (#[trigger] q[k]).0 == w[out.len() + k] && q[k].1 == covered(
                d,
                w,
                out.len() + k,
            )
        &&& !self.output_stream.is_closed_spec() ==> forall|i: int|
            0 <= i < out.len() ==> !#[trigger] alive_from(d, w, i)
        &&& self.output_stream.is_closed_spec() ==> q.len() == 0
        &&& !self.output_stream.is_closed_spec() ==> out.len() == w.len() || alive_from(d, w, out.len() as int)
    }

    /// Until the filtered stream is closed, it holds exactly the elements
    /// before the first position from which a run of the pattern is still
    /// alive, or all of them when there is none.
    pub open spec fn output_settled(&self) -> bool {
        !self.output_closed() ==> {
            &&& self.output().len() == self.consumed().len() || alive_from(
                self.pattern(),
                self.consumed(),
                self.output().len() as int,
            )
            &&& forall|i: int| 0 <= i < self.output().len() ==> !#[trigger] alive_from(self.pattern(), self.consumed(), i)
        }
    }

    /// Creates a filter of `input_stream` for the pattern of `matcher`.
    pub fn new(matcher: DFAEarliestPatternMatcher<S, L>, input_stream: ReadableView) -> (r: Self)
        requires
            matcher.inv(),
            matcher.input().len() == 0,
            input_stream.start == 0,
            keys_distinct(matcher.automaton().trans_view()),
        ensures
            r.inv(),
            r.pattern() == matcher.automaton(),
            r.consumed() == Seq::<L::V>::empty(),
            r.output() == Seq::<Option<L::V>>::empty(),
            !r.output_closed(),
    {
        let r = Self {
            matcher,
            input_stream,
            temporally_queue: Vec::new(),
            output_stream: AppendOnlySequence::new(),
        };
        assert(r.output_stream.items_deep() =~= Seq::<Option<L::V>>::empty());
        assert(r.temporally_queue.deep_view() =~= Seq::<(L::V, bool)>::empty());
        r
    }

    /// A view of the filtered stream from its beginning.
    pub fn readable_view(&self) -> (r: ReadableView)
        ensures
            r.start == 0,
    {
        self.output_stream.readable_view()
    }

    /// The filtered stream.
    pub fn output_stream(&self) -> (r: &AppendOnlySequence<Option<L>>)
        requires
            self.inv(),
        ensures
            r.items_deep() == self.output(),
            r.is_closed_spec() == self.output_closed(),
    {
        &self.output_stream
    }

    /// Moves the first `k` queued elements to the output.
    fn flush_front(&mut self, k: usize)
        requires
            k <= old(self).temporally_queue.len(),
        ensures
            final(self).matcher == old(self).matcher,
            final(self).input_stream == old(self).input_stream,
            final(self).output_stream.is_closed_spec() == old(self).output_stream.is_closed_spec(),
            final(self).temporally_queue.deep_view() == old(self).temporally_queue.deep_view().subrange(
                k as int,
                old(self).temporally_queue.len() as int,
            ),
            final(self).output_stream.items_deep() == old(self).output_stream.items_deep() + Seq::new(
                k as nat,
                |t: int|
                    if old(self).temporally_queue.deep_view()[t].1 {
                        Some(old(self).temporally_queue.deep_view()[t].0)
                    } else {
                        None
                    },
            ),
    {
        let ghost q0 = self.temporally_queue.deep_view();
        let ghost out0 = self.output_stream.items_deep();
        let mut moved = self.temporally_queue.split_off(k);
        std::mem::swap(&mut self.temporally_queue, &mut moved);
        let ghost f = |t: int| if q0[t].1 { Some(q0[t].0) } else { None::<L::V> };
        assert(moved.deep_view() =~= q0.subrange(0, k as int));
        assert(self.temporally_queue.deep_view() =~= q0.subrange(k as int, q0.len() as int));
        for t in 0..k
            invariant
                k == moved.len(),
                k <= q0.len(),
                moved.deep_view() == q0.subrange(0, k as int),
                self.output_stream.items_deep() == out0 + Seq::new(t as nat, f),
                self.output_stream.is_closed_spec() == old(self).output_stream.is_closed_spec(),
                self.matcher == old(self).matcher,
                self.input_stream == old(self).input_stream,
                self.temporally_queue.deep_view() == q0.subrange(k as int, q0.len() as int),
                f == (|t: int| if q0[t].1 { Some(q0[t].0) } else { None::<L::V> }),
        {
            assert(moved.deep_view()[t as int] == (moved[t as int].0.deep_view(), moved[t as int].1));
            assert(moved.deep_view()[t as int] == q0[t as int]);
            let item = if moved[t].1 {
                Some(moved[t].0.duplicate())
            } else {
                None
            };
            assert(item.deep_view() == f(t as int));
            let ghost before = self.output_stream.items_deep();
            self.output_stream.append(item);
            assert(self.output_stream.items_deep() =~= before.push(item.deep_view()));
            assert(self.output_stream.items_deep() =~= out0 + Seq::new((t + 1) as nat, f));
        }
    }

    /// Reads the new elements of `input`, runs the matcher on them, and
    /// outputs every element that no live run can still cover.
    pub fn consume_input(&mut self, input: &AppendOnlySequence<L>)
        requires
            old(self).inv(),
            old(self).consumed().len() <= input.items().len(),
            input.items_deep().take(old(self).consumed().len() as int) == old(self).consumed(),
            old(self).output_closed() ==> input.items().len() == old(self).consumed().len(),
        ensures
            final(self).inv(),
            final(self).output_settled(),
            final(self).pattern() == old(self).pattern(),
            final(self).consumed() == input.items_deep(),
            old(self).output().len() <= final(self).output().len(),
            old(self).output() == final(self).output().take(old(self).output().len() as int),
            forall|j: int|
                0 <= j < final(self).output().len() ==> #[trigger] final(self).output()[j]
                    == filtered_at(final(self).pattern(), input.items_deep(), j),
            input.is_closed_spec() ==> final(self).output_closed() && final(self).output().len()
                == input.items().len(),
            !input.is_closed_spec() ==> final(self).output_closed() == old(self).output_closed(),
    {
        let ghost d = self.matcher.automaton();
        let ghost out_start = self.output_stream.items_deep();
        let n_in = input.len();
        let mut n = self.input_stream.start;
        while n < n_in
            invariant
                self.inv(),
                d == self.matcher.automaton(),
                n == self.input_stream.start,
                n <= n_in,
                n_in == input.items().len(),
                self.matcher.input() == input.items_deep().take(n as int),
                old(self).output_closed() ==> n_in == n,
                self.output_stream.is_closed_spec() == old(self).output_stream.is_closed_spec(),
                out_start.len() <= self.output_stream.items_deep().len(),
                out_start == self.output_stream.items_deep().take(out_start.len() as int),
            decreases n_in - n,
        {
            let ghost w = self.matcher.input();
            let ghost out = self.output_stream.items_deep();
            let ghost q = self.temporally_queue.deep_view();
            let element = input.get(n).unwrap();
            let ghost a = element.deep_view();
            assert(input.items_deep()[n as int] == a);
            assert(input.items_deep().take(n + 1) =~= w.push(a));
            let ghost w2 = w.push(a);
            self.matcher.feed(element);
            self.temporally_queue.push((element.duplicate(), false));
            self.input_stream.start = n + 1;
            proof {
                // the flushed elements keep their verdict
                assert forall|j: int| 0 <= j < out.len() implies #[trigger] filtered_at(d, w2, j) == filtered_at(d, w, j) by {
                    lemma_covered_extend(d, w, a, j);
                    if exists|i: int| 0 <= i <= j && #[trigger] match_starts_at(d, w2, i) {
                        let i = choose|i: int| 0 <= i <= j && #[trigger] match_starts_at(d, w2, i);
                        lemma_match_alive(d, w2, i);
                        lemma_alive_before(d, w, a, i);
                    }
                    assert(w2[j] == w[j]);
                }
            }
            match self.matcher.earliest_starting_position() {
                Some(b) => {
                    let o = self.output_stream.len();
                    proof {
                        assert(o == out.len());
                        if b < o {
                            lemma_alive_before(d, w, a, b as int);
                        }
                    }
                    let k = b - o;
                    let ghost q1 = self.temporally_queue.deep_view();
                    proof {
                        assert forall|t: int| 0 <= t < k implies (#[trigger] q1[t]).1 == covered(d, w2, o + t) by {
                            assert(q1[t] == q[t]);
                            lemma_covered_extend(d, w, a, o + t);
                            if exists|i: int| 0 <= i <= o + t && #[trigger] match_starts_at(d, w2, i) {
                                let i = choose|i: int| 0 <= i <= o + t && #[trigger] match_starts_at(d, w2, i);
                                lemma_match_alive(d, w2, i);
                            }
                        }
                    }
                    self.flush_front(k);
                    proof {
                        let out2 = self.output_stream.items_deep();
                        assert forall|j: int| 0 <= j < out2.len() implies #[trigger] out2[j] == filtered_at(d, w2, j) by {
                            if j < out.len() {
                                assert(out2[j] == out[j]);
                            } else {
                                let t = j - o;
                                assert(q1[t].0 == w2[j]) by {
                                    assert(q1[t] == q[t]);
                                }
                            }
                        }
                        assert(out_start =~= out2.take(out_start.len() as int)) by {
                            assert(out2.take(out.len() as int) =~= out);
                        }
                    }
                    let ghost q2 = self.temporally_queue.deep_view();
                    assert(q2 =~= q1.subrange(k as int, q1.len() as int));
                    assert(q1 =~= q.push((a, false)));
                    let cm = self.matcher.current_matching();
                    match cm {
                        Some(i) => {
                            proof {
                                lemma_match_alive(d, w2, i as int);
                            }
                            let from = i - b;
                            let len = self.temporally_queue.len();
                            let mut j = from;
                            let ghost out_b = self.output_stream;
                            let ghost m_b = self.matcher;
                            let ghost in_b = self.input_stream;
                            while j < len
                                invariant
                                    self.output_stream == out_b,
                                    self.matcher == m_b,
                                    self.input_stream == in_b,
                                    from <= j,
                                    j <= len,
                                    len == self.temporally_queue.len(),
                                    len == q2.len(),
                                    self.temporally_queue.deep_view().len() == len,
                                    forall|t: int| 0 <= t < len ==> (#[trigger] self.temporally_queue.deep_view()[t]).0
                                        == q2[t].0,
                                    forall|t: int| 0 <= t < len ==> #[trigger] self.temporally_queue.deep_view()[t].1
                                        == if from <= t < j { true } else { q2[t].1 },
                                decreases len - j,
                            {
                                assert(self.temporally_queue.deep_view()[j as int] == (self.temporally_queue[j as int].0.deep_view(), self.temporally_queue[j as int].1));
                                let x = self.temporally_queue[j].0.duplicate();
                                let ghost before = self.temporally_queue.deep_view();
                                self.temporally_queue.set(j, (x, true));
                                assert(self.temporally_queue.deep_view() =~= before.update(j as int, (before[j as int].0, true)));
                                j = j + 1;
                            }
                        },
                        None => {},
                    }
                    proof {
                        let out2 = self.output_stream.items_deep();
                        let q3 = self.temporally_queue.deep_view();
                        assert(out2.len() == b);
                        assert forall|t: int| 0 <= t < q3.len() implies (#[trigger] q3[t]).0 == w2[out2.len() + t]
                            && q3[t].1 == covered(d, w2, out2.len() + t) by {
                            let p = b + t;
                            assert(q2[t] == q1[k + t]);
                            lemma_covered_extend(d, w, a, p);
                            if p < w.len() {
                                assert(q1[k + t] == q[k + t]);
                                assert(w2[p] == w[p]);
                            } else {
                                assert(!covered(d, w, p));
                            }
                            match cm {
                                Some(i) => {
                                    if p >= i {
                                        assert(match_starts_at(d, w2, i as int));
                                    } else {
                                        assert(!(exists|i2: int| 0 <= i2 <= p && #[trigger] match_starts_at(d, w2, i2)));
                                    }
                                },
                                None => {
                                    assert(!(exists|i2: int| 0 <= i2 <= p && #[trigger] match_starts_at(d, w2, i2)));
                                },
                            }
                        }
                        assert forall|i: int| 0 <= i < out2.len() implies !#[trigger] alive_from(d, w2, i) by {}
                    }
                },
                None => {
                    let k = self.temporally_queue.len();
                    let ghost q1 = self.temporally_queue.deep_view();
                    proof {
                        assert forall|t: int| 0 <= t < k implies (#[trigger] q1[t]).1 == covered(d, w2, out.len() + t) by {
                            let p = out.len() + t;
                            lemma_covered_extend(d, w, a, p);
                            if exists|i: int| 0 <= i <= p && #[trigger] match_starts_at(d, w2, i) {
                                let i = choose|i: int| 0 <= i <= p && #[trigger] match_starts_at(d, w2, i);
                                lemma_match_alive(d, w2, i);
                            }
                            if p < w.len() {
                                assert(q1[t] == q[t]);
                            }
                        }
                    }
                    self.flush_front(k);
                    proof {
                        let out2 = self.output_stream.items_deep();
                        assert forall|j: int| 0 <= j < out2.len() implies #[trigger] out2[j] == filtered_at(d, w2, j) by {
                            if j < out.len() {
                                assert(out2[j] == out[j]);
                            } else {
                                let t = j - out.len();
                                if j < w.len() {
                                    assert(q1[t] == q[t]);
                                }
                            }
                        }
                        assert(out_start =~= out2.take(out_start.len() as int)) by {
                            assert(out2.take(out.len() as int) =~= out);
                        }
                        assert(self.temporally_queue.deep_view() =~= Seq::<(L::V, bool)>::empty());
                    }
                },
            }
            n = n + 1;
        }
        proof {
            assert(input.items_deep().take(n as int) =~= input.items_deep());
        }
        self.check_closed(input);
    }

    /// Once `input` is closed, outputs every element still queued and
    /// closes the filtered stream.
    pub fn check_closed(&mut self, input: &AppendOnlySequence<L>)
        requires
            old(self).inv(),
            old(self).consumed() == input.items_deep(),
        ensures
            final(self).inv(),
            final(self).output_settled(),
            final(self).pattern() == old(self).pattern(),
            final(self).consumed() == old(self).consumed(),
            old(self).output().len() <= final(self).output().len(),
            old(self).output() == final(self).output().take(old(self).output().len() as int),
            forall|j: int|
                0 <= j < final(self).output().len() ==> #[trigger] final(self).output()[j]
                    == filtered_at(final(self).pattern(), final(self).consumed(), j),
            input.is_closed_spec() ==> final(self).output_closed() && final(self).output().len()
                == final(self).consumed().len(),
            !input.is_closed_spec() ==> final(self).output_closed() == old(self).output_closed(),
    {
        let ghost d = self.matcher.automaton();
        let ghost w = self.matcher.input();
        if input.is_closed() && !self.output_stream.is_closed() {
            let ghost out = self.output_stream.items_deep();
            let ghost q = self.temporally_queue.deep_view();
            let k = self.temporally_queue.len();
            self.flush_front(k);
            self.output_stream.close();
            proof {
                let out2 = self.output_stream.items_deep();
                assert forall|j: int| 0 <= j < out2.len() implies #[trigger] out2[j] == filtered_at(d, w, j) by {
                    if j < out.len() {
                        assert(out2[j] == out[j]);
                    } else {
                        assert(q[j - out.len()].1 == covered(d, w, j));
                    }
                }
                assert(out =~= out2.take(out.len() as int));
                assert(self.temporally_queue.deep_view() =~= Seq::<(L::V, bool)>::empty());
            }
        } else {
            proof {
                assert(self.output_stream.items_deep() =~= self.output_stream.items_deep().take(
                    self.output_stream.items_deep().len() as int,
                ));
            }
        }
    }
}

} // verus!
