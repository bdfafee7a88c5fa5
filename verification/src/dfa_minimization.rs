use vstd::prelude::*;
use crate::automata::{Automata, all_false};
use crate::dfa::{DFA, distinct, lemma_distinct_push};
use crate::label::{Symbol, ValidLabel, position_of, lemma_push_contains, duplicate_all};
use crate::nfa::{nonempty, num_flag_sets, lemma_distinct_flag_sets_bound, find_flags, any_flag, flag_views};

verus! {

/// `a` has a transition from `q` to `p` that reads `x`.
pub open spec fn label_edge<L: ValidLabel>(a: Automata<L>, q: int, x: L::V, p: int) -> bool {
    0 <= q < a.num_states() && exists|k: int|
        0 <= k < a.trans(q).len() && (#[trigger] a.trans(q)[k]).label.deep_view() == x
            && a.trans(q)[k].next_state == p
}

/// The states reached from a flagged state of `s` by a transition reading `x`.
pub open spec fn post_on<L: ValidLabel>(a: Automata<L>, s: Seq<bool>, x: L::V) -> Seq<bool> {
    Seq::new(
        a.num_states(),
        |p: int| exists|q: int| 0 <= q < s.len() && s[q] && #[trigger] label_edge(a, q, x, p),
    )
}

/// The initial states of `a`, flagged.
pub open spec fn start_set<L: ValidLabel>(a: Automata<L>) -> Seq<bool> {
    Seq::new(a.num_states(), |p: int| a.is_initial(p))
}

/// Some flagged state of `s` accepts.
pub open spec fn set_accepts<L: ValidLabel>(a: Automata<L>, s: Seq<bool>) -> bool {
    exists|p: int| 0 <= p < s.len() && s[p] && #[trigger] a.final_at(p)
}

/// Some state reached from an initial state has a transition reading `x`.
pub open spec fn reachable_letter<L: ValidLabel>(a: Automata<L>, x: L::V) -> bool {
    exists|q: int, p: int| #[trigger] a.reachable(q) && #[trigger] label_edge(a, q, x, p)
}

impl<L: ValidLabel> Automata<L> {
    /// The labels of the transitions that leave reachable states, each once.
    fn reachable_alphabet(&self) -> (r: Vec<L>)
        requires
            self.wf(),
        ensures
            distinct(r.deep_view()),
            forall|x: L::V| #[trigger] r.deep_view().contains(x) <==> reachable_letter(*self, x),
    {
        let n = self.states.len();
        let flags = self.reachable_flags();
        let mut r: Vec<L> = Vec::new();
        for q in 0..n
            invariant
                self.wf(),
                n == self.num_states(),
                flags@.len() == n,
                forall|p: int| 0 <= p < n ==> (flags@[p] <==> self.reachable(p)),
                distinct(r.deep_view()),
                forall|x: L::V| #[trigger] r.deep_view().contains(x) <==> exists|q2: int, p: int|
                    0 <= q2 < q && flags@[q2] && #[trigger] label_edge(*self, q2, x, p),
        {
            if flags[q] {
                let ts = &self.states[q].transitions;
                assert(ts@ == self.trans(q as int));
                for k in 0..ts.len()
                    invariant
                        self.wf(),
                        n == self.num_states(),
                        q < n,
                        flags@.len() == n,
                        flags@[q as int],
                        ts@ == self.trans(q as int),
                        distinct(r.deep_view()),
                        forall|x: L::V| #[trigger] r.deep_view().contains(x) <==> (exists|q2: int, p: int|
                            0 <= q2 < q && flags@[q2] && #[trigger] label_edge(*self, q2, x, p)) || exists|k2: int|
                            0 <= k2 < k && (#[trigger] self.trans(q as int)[k2]).label.deep_view() == x,
                {
                    let ghost before = r.deep_view();
                    let ghost lv = ts[k as int].label.deep_view();
                    match position_of(&r, &ts[k].label) {
                        Some(_) => {},
                        None => {
                            let l = ts[k].label.duplicate();
                            r.push(l);
                            proof {
                                assert(r.deep_view() =~= before.push(lv));
                                lemma_push_contains(before, lv);
                                lemma_distinct_push(before, lv);
                            }
                        },
                    }
                    proof {
                        assert forall|x: L::V| #[trigger] r.deep_view().contains(x) <==> (exists|q2: int, p: int|
                            0 <= q2 < q && flags@[q2] && #[trigger] label_edge(*self, q2, x, p)) || exists|k2: int|
                            0 <= k2 < k + 1 && (#[trigger] self.trans(q as int)[k2]).label.deep_view() == x by {
                            if exists|k2: int| 0 <= k2 < k + 1 && (#[trigger] self.trans(q as int)[k2]).label.deep_view() == x {
                                let k2 = choose|k2: int| 0 <= k2 < k + 1 && (#[trigger] self.trans(q as int)[k2]).label.deep_view() == x;
                                if k2 < k {
                                    assert(before.contains(x));
                                }
                            }
                        }
                    }
                }
                proof {
                    assert forall|x: L::V| #[trigger] r.deep_view().contains(x) <==> exists|q2: int, p: int|
                        0 <= q2 < q + 1 && flags@[q2] && #[trigger] label_edge(*self, q2, x, p) by {
                        if exists|k2: int| 0 <= k2 < ts@.len() && (#[trigger] self.trans(q as int)[k2]).label.deep_view() == x {
                            let k2 = choose|k2: int| 0 <= k2 < ts@.len() && (#[trigger] self.trans(q as int)[k2]).label.deep_view() == x;
                            assert(label_edge(*self, q as int, x, self.trans(q as int)[k2].next_state as int));
                        }
                        if exists|q2: int, p: int| 0 <= q2 < q + 1 && flags@[q2] && #[trigger] label_edge(*self, q2, x, p) {
                            let (q2, p) = choose|q2: int, p: int| 0 <= q2 < q + 1 && flags@[q2] && #[trigger] label_edge(*self, q2, x, p);
                            if q2 == q {
                                let k2 = choose|k2: int| 0 <= k2 < self.trans(q2).len()
                                    && (#[trigger] self.trans(q2)[k2]).label.deep_view() == x && self.trans(q2)[k2].next_state == p;
                            }
                        }
                    }
                }
            } else {
                proof {
                    assert forall|x: L::V| #[trigger] r.deep_view().contains(x) <==> exists|q2: int, p: int|
                        0 <= q2 < q + 1 && flags@[q2] && #[trigger] label_edge(*self, q2, x, p) by {
                        if exists|q2: int, p: int| 0 <= q2 < q + 1 && flags@[q2] && #[trigger] label_edge(*self, q2, x, p) {
                            let (q2, p) = choose|q2: int, p: int| 0 <= q2 < q + 1 && flags@[q2] && #[trigger] label_edge(*self, q2, x, p);
                            assert(q2 != q);
                        }
                    }
                }
            }
        }
        proof {
            assert forall|x: L::V| #[trigger] r.deep_view().contains(x) <==> reachable_letter(*self, x) by {
                if reachable_letter(*self, x) {
                    let (q2, p) = choose|q2: int, p: int| #[trigger] self.reachable(q2) && #[trigger] label_edge(*self, q2, x, p);
                    assert(flags@[q2]);
                }
            }
        }
        r
    }

    /// The states reached from a flagged state by a transition reading `x`.
    fn post_flags(&self, s: &Vec<bool>, x: &L) -> (r: Vec<bool>)
        requires
            self.wf(),
            s@.len() == self.num_states(),
        ensures
            r@ == post_on(*self, s@, x.deep_view()),
    {
        let n = self.states.len();
        let ghost xv = x.deep_view();
        let mut r = all_false(n);
        for q in 0..n
            invariant
                self.wf(),
                n == self.num_states(),
                s@.len() == n,
                r@.len() == n,
                xv == x.deep_view(),
                forall|p: int| 0 <= p < n ==> (r@[p] <==> exists|q2: int|
                    0 <= q2 < q && s@[q2] && #[trigger] label_edge(*self, q2, xv, p)),
        {
            if s[q] {
                let ts = &self.states[q].transitions;
                assert(ts@ == self.trans(q as int));
                for k in 0..ts.len()
                    invariant
                        self.wf(),
                        n == self.num_states(),
                        q < n,
                        s@.len() == n,
                        s@[q as int],
                        ts@ == self.trans(q as int),
                        r@.len() == n,
                        xv == x.deep_view(),
                        forall|p: int| 0 <= p < n ==> (r@[p] <==> (exists|q2: int|
                            0 <= q2 < q && s@[q2] && #[trigger] label_edge(*self, q2, xv, p)) || exists|k2: int|
                            0 <= k2 < k && (#[trigger] self.trans(q as int)[k2]).label.deep_view() == xv
                                && self.trans(q as int)[k2].next_state == p),
                {
                    let t = ts[k].next_state;
                    assert(self.trans(q as int)[k as int].next_state < n);
                    if ts[k].label.same_as(x) {
                        r.set(t, true);
                    }
                }
                proof {
                    assert forall|p: int| 0 <= p < n implies (r@[p] <==> exists|q2: int|
                        0 <= q2 < q + 1 && s@[q2] && #[trigger] label_edge(*self, q2, xv, p)) by {
                        if exists|k2: int| 0 <= k2 < ts@.len() && (#[trigger] self.trans(q as int)[k2]).label.deep_view() == xv
                            && self.trans(q as int)[k2].next_state == p {
                            assert(label_edge(*self, q as int, xv, p));
                        }
                        if label_edge(*self, q as int, xv, p) {
                            let k2 = choose|k2: int| 0 <= k2 < self.trans(q as int).len()
                                && (#[trigger] self.trans(q as int)[k2]).label.deep_view() == xv
                                && self.trans(q as int)[k2].next_state == p;
                        }
                    }
                }
            }
        }
        proof {
            assert forall|p: int| 0 <= p < n implies r@[p] == post_on(*self, s@, xv)[p] by {
                if exists|q2: int| 0 <= q2 < n && s@[q2] && #[trigger] label_edge(*self, q2, xv, p) {
                    let q2 = choose|q2: int| 0 <= q2 < n && s@[q2] && #[trigger] label_edge(*self, q2, xv, p);
                    assert(0 <= q2 < s@.len());
                }
            }
            assert(r@ =~= post_on(*self, s@, xv));
        }
        r
    }

    /// The initial states, flagged.
    fn start_flags(&self) -> (r: Vec<bool>)
        requires
            self.wf(),
        ensures
            r@ == start_set(*self),
    {
        let n = self.states.len();
        let mut r = all_false(n);
        for i in 0..self.initial_states.len()
            invariant
                self.wf(),
                n == self.num_states(),
                r@.len() == n,
                forall|p: int| 0 <= p < n ==> (r@[p] <==> exists|j: int|
                    0 <= j < i && #[trigger] self.initial_states@[j] as int == p),
        {
            let q = self.initial_states[i];
            r.set(q, true);
        }
        proof {
            assert forall|p: int| 0 <= p < n implies r@[p] == start_set(*self)[p] by {
                if self.is_initial(p) {
                    let j = choose|j: int| 0 <= j < self.initial_states@.len() && #[trigger] self.initial_states@[j] as int == p;
                }
            }
            assert(r@ =~= start_set(*self));
        }
        r
    }
}


/// The `i`-th state of `d` moves on `x` as the subset construction on `a`
/// says: to the state standing for the set reached from `sets[i]` by `x`
/// when that set is not empty, and nowhere otherwise.
pub open spec fn subset_step_ok<L: ValidLabel>(
    a: Automata<L>,
    d: DFA<usize, L>,
    sets: Seq<Seq<bool>>,
    i: int,
    x: L::V,
) -> bool {
    match d.step(i as usize, x) {
        Some(j) => j < sets.len() && sets[j as int] == post_on(a, sets[i], x) && nonempty(sets[j as int]),
        None => !nonempty(post_on(a, sets[i], x)),
    }
}

/// `d` is the subset construction of `a`, its `i`-th state (numbered `i`)
/// standing for the set `sets[i]` of states of `a`: state 0 stands for the
/// initial states; the alphabet is made of the letters read from reachable
/// states; a state accepts when its set holds an accepting state; and the
/// transitions follow `subset_step_ok`.
pub open spec fn is_subset_dfa<L: ValidLabel>(a: Automata<L>, d: DFA<usize, L>, sets: Seq<Seq<bool>>) -> bool {
    &&& d.wf()
    &&& sets.len() >= 1
    &&& distinct(sets)
    &&& forall|i: int| 0 <= i < sets.len() ==> (#[trigger] sets[i]).len() == a.num_states()
    &&& d.states_view() == Seq::new(sets.len(), |i: int| i as usize)
    &&& d.initial_view() == 0usize
    &&& sets[0] == start_set(a)
    &&& forall|x: L::V| #[trigger] d.alphabet_view().contains(x) <==> reachable_letter(a, x)
    &&& forall|i: int| 0 <= i < sets.len() ==> (#[trigger] d.finals_view().contains(i as usize) <==> set_accepts(a, sets[i]))
    &&& forall|i: int, x: L::V| 0 <= i < sets.len() ==> #[trigger] subset_step_ok(a, d, sets, i, x)
}

/// A state with a transition from a reachable state is reachable.
proof fn lemma_reachable_succ<L: ValidLabel>(a: Automata<L>, q: int, p: int)
    requires
        a.reachable(q),
        a.has_edge(q, p),
    ensures
        a.reachable(p),
{
    let m = choose|m: nat| #[trigger] a.reachable_in(q, m);
    a.lemma_reachable_in_step(p, m);
    assert(a.reachable_in(p, m + 1));
}

/// A subset construction under way: the DFA built so far and the set of
/// states of the automaton that each of its states stands for.
struct SubsetBuilder<L: ValidLabel> {
    dfa: DFA<usize, L>,
    sets: Vec<Vec<bool>>,
}

impl<L: ValidLabel> SubsetBuilder<L> {
    spec fn views(&self) -> Seq<Seq<bool>> {
        flag_views(self.sets@)
    }

    /// What holds of every state, whether its transitions are built or not.
    spec fn inv(&self, a: Automata<L>, alphabet: Seq<L::V>) -> bool {
        &&& self.dfa.wf()
        &&& self.dfa.alphabet_view() == alphabet
        &&& self.dfa.initial_view() == 0usize
        &&& self.dfa.states_view() == Seq::new(self.sets@.len(), |i: int| i as usize)
        &&& self.sets@.len() >= 1
        &&& distinct(self.views())
        &&& self.views().len() <= num_flag_sets(a.num_states())
        &&& forall|i: int| 0 <= i < self.sets@.len() ==> (#[trigger] self.sets@[i])@.len() == a.num_states()
        &&& self.sets@[0]@ == start_set(a)
        &&& forall|i: int, p: int| 0 <= i < self.sets@.len() && 0 <= p < a.num_states() && #[trigger] self.sets@[i]@[p]
            ==> a.reachable(p)
        &&& forall|i: int| 0 <= i < self.sets@.len() ==> (#[trigger] self.dfa.finals_view().contains(i as usize)
            <==> set_accepts(a, self.sets@[i]@))
    }

    spec fn step_ok(&self, a: Automata<L>, i: int, x: L::V) -> bool {
        subset_step_ok(a, self.dfa, self.views(), i, x)
    }

    /// Handles the letter `alphabet[ai]` from state `head`: finds or adds
    /// the state standing for the set it leads to, and the transition to it.
    #[verifier::rlimit(60)]
    fn add_letter(&mut self, a: &Automata<L>, alphabet: &Vec<L>, head: usize, ai: usize)
        requires
            a.wf(),
            old(self).inv(*a, alphabet.deep_view()),
            head < old(self).sets@.len(),
            ai < alphabet@.len(),
            old(self).dfa.step(head, alphabet.deep_view()[ai as int]) is None,
        ensures
            final(self).inv(*a, alphabet.deep_view()),
            old(self).sets@.len() <= final(self).sets@.len(),
            forall|m: int| 0 <= m < old(self).sets@.len() ==> #[trigger] final(self).sets@[m] == old(self).sets@[m],
            forall|q: usize, y: L::V| !(q == head && y == alphabet.deep_view()[ai as int])
                ==> #[trigger] final(self).dfa.step(q, y) == old(self).dfa.step(q, y),
            final(self).step_ok(*a, head as int, alphabet.deep_view()[ai as int]),
            forall|i: int, y: L::V| 0 <= i < old(self).sets@.len() && #[trigger] old(self).step_ok(*a, i, y)
                && !(i == head && y == alphabet.deep_view()[ai as int]) ==> final(self).step_ok(*a, i, y),
            forall|i: int, y: L::V| old(self).sets@.len() <= i < final(self).sets@.len()
                ==> #[trigger] final(self).dfa.step(i as usize, y) is None,
    {
        let ghost alph = alphabet.deep_view();
        let ghost xv = alph[ai as int];
        let ghost n = a.num_states();
        let ghost old_views = self.views();
        assert(alphabet[ai as int].deep_view() == xv);
        let next = a.post_flags(&self.sets[head], &alphabet[ai]);
        assert(self.sets@[head as int]@ == old_views[head as int]);
        if any_flag(&next) {
            let target: usize = match find_flags(&self.sets, &next) {
                Some(j) => j,
                None => {
                    let j = self.sets.len();
                    let accepting = a.any_final(&next);
                    proof {
                        assert forall|p: int| 0 <= p < n && #[trigger] next@[p] implies a.reachable(p) by {
                            let q = choose|q: int| 0 <= q < old_views[head as int].len() && old_views[head as int][q]
                                && #[trigger] label_edge(*a, q, xv, p);
                            assert(self.sets@[head as int]@[q]);
                            let k = choose|k: int| 0 <= k < a.trans(q).len() && (#[trigger] a.trans(q)[k]).label.deep_view() == xv
                                && a.trans(q)[k].next_state == p;
                            assert(a.has_edge(q, p));
                            lemma_reachable_succ(*a, q, p);
                        }
                        assert(!self.dfa.states_view().contains(j));
                    }
                    self.sets.push(next.clone());
                    proof {
                        assert(self.views() =~= old_views.push(next@));
                        assert forall|m: int| 0 <= m < old_views.len() implies old_views[m] != next@ by {
                            assert(old_views[m] == self.sets@[m]@);
                        }
                        lemma_push_contains(old_views, next@);
                        lemma_distinct_push(old_views, next@);
                        lemma_distinct_flag_sets_bound(self.views(), n);
                    }
                    if accepting {
                        self.dfa.set_final(j);
                    }
                    proof {
                        if accepting {
                            assert(self.dfa.states_view() =~= Seq::new(self.sets@.len(), |i: int| i as usize));
                        }
                        assert(self.sets@[0] == old(self).sets@[0]);
                    }
                    j
                },
            };
            let x = alphabet[ai].duplicate();
            assert(x.deep_view() == xv);
            assert(self.dfa.alphabet_view().contains(xv)) by {
                assert(self.dfa.alphabet_view()[ai as int] == xv);
            }
            let ghost mid = self.dfa;
            proof {
                assert(mid.trans_view() == old(self).dfa.trans_view());
                assert(mid.states_view() == Seq::new(self.sets@.len(), |i: int| i as usize) || (mid.states_view()
                    == Seq::new(old(self).sets@.len(), |i: int| i as usize) && target == old(self).sets@.len()));
                assert(mid.states_view().contains(head)) by {
                    assert(mid.states_view()[head as int] == head);
                }
            }
            self.dfa.add_transition(head, x, target);
            proof {
                if mid.states_view() == Seq::new(self.sets@.len(), |i: int| i as usize) {
                    assert(mid.states_view()[target as int] == target);
                } else {
                    assert(!mid.states_view().contains(target));
                }
                assert(self.dfa.states_view() =~= Seq::new(self.sets@.len(), |i: int| i as usize));
                assert(self.sets@[head as int] == old(self).sets@[head as int]);
                assert forall|i: int, y: L::V| old(self).sets@.len() <= i < self.sets@.len()
                    implies #[trigger] self.dfa.step(i as usize, y) is None by {
                    old(self).dfa.lemma_step_closed(i as usize, y);
                    assert(!old(self).dfa.states_view().contains(i as usize));
                }
                assert forall|i: int, y: L::V| 0 <= i < old(self).sets@.len() && #[trigger] old(self).step_ok(*a, i, y)
                    && !(i == head && y == xv) implies self.step_ok(*a, i, y) by {
                    assert(self.sets@[i] == old(self).sets@[i]);
                    assert(self.views()[i] == old(self).views()[i]);
                    assert(mid.step(i as usize, y) == old(self).dfa.step(i as usize, y));
                    assert(i < old(self).sets.len());
                    assert(!(i as usize == head && y == xv));
                    assert(self.dfa.step(i as usize, y) == old(self).dfa.step(i as usize, y));
                    if let Some(t) = old(self).dfa.step(i as usize, y) {
                        assert(self.sets@[t as int] == old(self).sets@[t as int]);
                        assert(self.views()[t as int] == old(self).views()[t as int]);
                    }
                }
                assert(self.step_ok(*a, head as int, xv));
                assert forall|i: int| 0 <= i < self.sets@.len() implies (#[trigger] self.dfa.finals_view().contains(i as usize)
                    <==> set_accepts(*a, self.sets@[i]@)) by {
                    if i < old(self).sets@.len() {
                        assert(self.sets@[i] == old(self).sets@[i]);
                    }
                }
            }
        } else {
            proof {
                assert(self.step_ok(*a, head as int, xv));
            }
        }
    }
}

impl<L: ValidLabel> Automata<L> {
    /// The subset construction (see `is_subset_dfa`): a DFA over the letters
    /// read from reachable states, whose states stand for the sets of states
    /// of this automaton that the words reach.
    pub fn determinize(&self) -> (r: DFA<usize, L>)
        requires
            self.wf(),
        ensures
            exists|sets: Seq<Seq<bool>>| #[trigger] is_subset_dfa(*self, r, sets),
    {
        let ghost n = self.num_states();
        let alphabet = self.reachable_alphabet();
        let letters = duplicate_all(&alphabet);
        let ghost lv = letters.deep_view();
        let init = self.start_flags();
        let accepting = self.any_final(&init);
        let mut dfa: DFA<usize, L> = DFA::new(0, alphabet);
        if accepting {
            dfa.set_final(0);
        }
        let mut sets: Vec<Vec<bool>> = Vec::new();
        sets.push(init);
        let mut b = SubsetBuilder { dfa, sets };
        proof {
            assert(b.dfa.states_view() =~= Seq::new(1, |i: int| i as usize));
            assert(b.views() =~= seq![init@]);
            assert(distinct(b.views()));
            lemma_distinct_flag_sets_bound(b.views(), n);
            assert forall|i: int, p: int| 0 <= i < b.sets@.len() && 0 <= p < n && #[trigger] b.sets@[i]@[p]
                implies self.reachable(p) by {
                assert(i == 0);
                self.lemma_reachable_in_zero(p);
                assert(self.reachable_in(p, 0));
            }
            assert(b.inv(*self, lv));
            assert forall|i: int, x: L::V| 0 <= i < b.sets@.len() implies #[trigger] b.dfa.step(i as usize, x) is None by {
                assert(b.dfa.trans_view().len() == 0);
            }
        }
        let mut head: usize = 0;
        while head < b.sets.len()
            invariant
                self.wf(),
                n == self.num_states(),
                lv == letters.deep_view(),
                distinct(lv),
                forall|x: L::V| #[trigger] lv.contains(x) <==> reachable_letter(*self, x),
                b.inv(*self, lv),
                head <= b.sets@.len(),
                forall|i: int, x: L::V| 0 <= i < head && lv.contains(x) ==> #[trigger] b.step_ok(*self, i, x),
                forall|i: int, x: L::V| head <= i < b.sets@.len() ==> #[trigger] b.dfa.step(i as usize, x) is None,
            decreases num_flag_sets(n) - b.sets@.len(), b.sets@.len() - head,
        {
            let ghost b0 = b;
            proof {
                assert forall|x: L::V| #[trigger] b.dfa.step(head, x) is None by {
                    assert(b.dfa.step(head as int as usize, x) is None);
                }
            }
            for ai in 0..letters.len()
                invariant
                    self.wf(),
                    n == self.num_states(),
                    lv == letters.deep_view(),
                    distinct(lv),
                    b.inv(*self, lv),
                    head < b0.sets@.len() <= b.sets@.len(),
                    forall|i: int, x: L::V| 0 <= i < head && lv.contains(x) ==> #[trigger] b.step_ok(*self, i, x),
                    forall|i: int, x: L::V| head < i < b.sets@.len() ==> #[trigger] b.dfa.step(i as usize, x) is None,
                    forall|x: L::V| #[trigger] b.dfa.step(head, x) is Some ==> exists|m: int| 0 <= m < ai && lv[m] == x,
                    forall|m: int| 0 <= m < ai ==> b.step_ok(*self, head as int, #[trigger] lv[m]),
            {
                let ghost bb = b;
                proof {
                    if b.dfa.step(head, lv[ai as int]) is Some {
                        let m = choose|m: int| 0 <= m < ai && lv[m] == lv[ai as int];
                    }
                }
                b.add_letter(self, &letters, head, ai);
                proof {
                    assert forall|i: int, x: L::V| 0 <= i < head && lv.contains(x) implies #[trigger] b.step_ok(*self, i, x) by {
                        assert(bb.step_ok(*self, i, x));
                    }
                    assert forall|i: int, x: L::V| head < i < b.sets@.len() implies #[trigger] b.dfa.step(i as usize, x) is None by {
                        if i < bb.sets@.len() {
                            assert(bb.dfa.step(i as usize, x) is None);
                            assert(i < bb.sets.len());
                            assert(b.dfa.step(i as usize, x) == bb.dfa.step(i as usize, x));
                        }
                    }
                    assert forall|x: L::V| #[trigger] b.dfa.step(head, x) is Some implies exists|m: int| 0 <= m < ai + 1 && lv[m] == x by {
                        if x != lv[ai as int] {
                            assert(b.dfa.step(head, x) == bb.dfa.step(head, x));
                        }
                    }
                    assert forall|m: int| 0 <= m < ai + 1 implies b.step_ok(*self, head as int, #[trigger] lv[m]) by {
                        if m < ai {
                            assert(bb.step_ok(*self, head as int, lv[m]));
                        }
                    }
                }
            }
            proof {
                assert forall|i: int, x: L::V| 0 <= i < head + 1 && lv.contains(x) implies #[trigger] b.step_ok(*self, i, x) by {
                    if i == head {
                        let m = choose|m: int| 0 <= m < lv.len() && lv[m] == x;
                        assert(b.step_ok(*self, head as int, lv[m]));
                    }
                }
            }
            head = head + 1;
        }
        proof {
            let d = b.dfa;
            let views = b.views();
            assert forall|i: int| 0 <= i < views.len() implies (#[trigger] views[i]).len() == n by {
                assert(views[i] == b.sets@[i]@);
            }
            assert forall|i: int| 0 <= i < views.len() implies (#[trigger] d.finals_view().contains(i as usize)
                <==> set_accepts(*self, views[i])) by {
                assert(views[i] == b.sets@[i]@);
            }
            assert forall|i: int, x: L::V| 0 <= i < views.len() implies #[trigger] subset_step_ok(*self, d, views, i, x) by {
                if lv.contains(x) {
                    assert(b.step_ok(*self, i, x));
                } else {
                    d.lemma_step_closed(i as usize, x);
                    assert(views[i] == b.sets@[i]@);
                    if nonempty(post_on(*self, views[i], x)) {
                        let p = choose|p: int| 0 <= p < post_on(*self, views[i], x).len() && post_on(*self, views[i], x)[p];
                        let q = choose|q: int| 0 <= q < views[i].len() && views[i][q] && #[trigger] label_edge(*self, q, x, p);
                        assert(b.sets@[i]@[q]);
                        assert(self.reachable(q));
                        assert(reachable_letter(*self, x));
                    }
                }
            }
            assert(views[0] == b.sets@[0]@);
            assert(is_subset_dfa(*self, d, views));
        }
        b.dfa
    }
}

/// The states of `a` reached from an initial state by reading `w`.
pub open spec fn reach_set<L: ValidLabel>(a: Automata<L>, w: Seq<L::V>) -> Seq<bool> {
    Seq::new(a.num_states(), |p: int| a.prefix_at(w, p))
}

/// `a` accepts `w`: some run from an initial state reads `w` and ends in an
/// accepting state.
pub open spec fn nfa_accepts<L: ValidLabel>(a: Automata<L>, w: Seq<L::V>) -> bool {
    exists|p: int| #[trigger] a.prefix_at(w, p) && a.final_at(p)
}

/// Reading one more letter moves the reached states along the transitions
/// that read it.
proof fn lemma_reach_set_push<L: ValidLabel>(a: Automata<L>, w: Seq<L::V>, x: L::V)
    requires
        a.wf(),
    ensures
        post_on(a, reach_set(a, w), x) == reach_set(a, w.push(x)),
{
    let n = a.num_states();
    let s = reach_set(a, w);
    assert forall|p: int| 0 <= p < n implies post_on(a, s, x)[p] == reach_set(a, w.push(x))[p] by {
        a.lemma_prefix_step(w, x, p);
        if post_on(a, s, x)[p] {
            let q = choose|q: int| 0 <= q < s.len() && s[q] && #[trigger] label_edge(a, q, x, p);
            let k = choose|k: int| 0 <= k < a.trans(q).len() && (#[trigger] a.trans(q)[k]).label.deep_view() == x
                && a.trans(q)[k].next_state == p;
            assert(a.prefix_at(w, q));
        }
        if a.prefix_at(w.push(x), p) {
            let (q, k) = choose|q: int, k: int| #[trigger] a.prefix_at(w, q) && 0 <= q < n && 0 <= k < a.trans(q).len()
                && a.trans(q)[k].next_state == p && #[trigger] a.trans(q)[k].label.deep_view() == x;
            assert(s[q]);
            assert(label_edge(a, q, x, p));
        }
    }
    assert(post_on(a, s, x) =~= reach_set(a, w.push(x)));
}

/// The state of a subset construction reached by `w` stands for the states
/// of the automaton reached by `w`; when there is none, no state of the
/// automaton is reached.
proof fn lemma_subset_run<L: ValidLabel>(a: Automata<L>, d: DFA<usize, L>, sets: Seq<Seq<bool>>, w: Seq<L::V>)
    requires
        a.wf(),
        is_subset_dfa(a, d, sets),
    ensures
        match d.run(w) {
            Some(j) => j < sets.len() && sets[j as int] == reach_set(a, w),
            None => !nonempty(reach_set(a, w)),
        },
    decreases w.len(),
{
    if w.len() == 0 {
        assert(w =~= Seq::<L::V>::empty());
        assert forall|p: int| 0 <= p < a.num_states() implies start_set(a)[p] == reach_set(a, w)[p] by {
            a.lemma_prefix_empty(p);
        }
        assert(start_set(a) =~= reach_set(a, w));
    } else {
        let u = w.drop_last();
        let x = w.last();
        assert(u.push(x) =~= w);
        lemma_subset_run(a, d, sets, u);
        lemma_reach_set_push(a, u, x);
        match d.run(u) {
            Some(j) => {
                assert(subset_step_ok(a, d, sets, j as int, x));
            },
            None => {
                let s = reach_set(a, u);
                if nonempty(post_on(a, s, x)) {
                    let p = choose|p: int| 0 <= p < post_on(a, s, x).len() && post_on(a, s, x)[p];
                    let q = choose|q: int| 0 <= q < s.len() && s[q] && #[trigger] label_edge(a, q, x, p);
                }
            },
        }
    }
}

/// Determinizing keeps the language: the subset construction of `a`
/// accepts exactly the words that `a` accepts.
pub proof fn lemma_determinize_language<L: ValidLabel>(
    a: Automata<L>,
    d: DFA<usize, L>,
    sets: Seq<Seq<bool>>,
    w: Seq<L::V>,
)
    requires
        a.wf(),
        is_subset_dfa(a, d, sets),
    ensures
        d.accepts_word(w) <==> nfa_accepts(a, w),
{
    lemma_subset_run(a, d, sets, w);
    let s = reach_set(a, w);
    match d.run(w) {
        Some(j) => {
            assert(d.finals_view().contains(j as int as usize) <==> set_accepts(a, sets[j as int]));
            if nfa_accepts(a, w) {
                let p = choose|p: int| #[trigger] a.prefix_at(w, p) && a.final_at(p);
                assert(0 <= p < a.num_states());
                assert(s[p]);
            }
            if set_accepts(a, sets[j as int]) {
                let p = choose|p: int| 0 <= p < sets[j as int].len() && sets[j as int][p] && #[trigger] a.final_at(p);
                assert(a.prefix_at(w, p));
            }
        },
        None => {
            if nfa_accepts(a, w) {
                let p = choose|p: int| #[trigger] a.prefix_at(w, p) && a.final_at(p);
                assert(0 <= p < a.num_states());
                assert(s[p]);
            }
        },
    }
}

/// `r` is the reversal of `d`, its `i`-th state standing for the `i`-th
/// state of `d`: the accepting states of `d` become initial, its initial
/// state becomes the only accepting one, and each transition is turned
/// around.
pub open spec fn is_reversal<S: Symbol, A: ValidLabel>(d: DFA<S, A>, r: Automata<A>) -> bool {
    &&& r.wf()
    &&& r.dimensions == 1
    &&& r.num_states() == d.states_view().len()
    &&& forall|i: int| 0 <= i < r.num_states() ==> (#[trigger] r.final_at(i) <==> d.states_view()[i] == d.initial_view())
    &&& forall|i: int| 0 <= i < r.num_states() ==> (#[trigger] r.is_initial(i) <==> d.finals_view().contains(d.states_view()[i]))
    &&& forall|i: int, x: A::V, j: int| 0 <= i < r.num_states() && 0 <= j < r.num_states()
        ==> (#[trigger] label_edge(r, i, x, j) <==> d.step(d.states_view()[j], x) == Some(d.states_view()[i]))
}

/// Adding a transition to state `from` adds exactly its edge.
pub proof fn lemma_label_edge_push<L: ValidLabel>(old: Automata<L>, new: Automata<L>, from: int, label: L, to: usize)
    requires
        0 <= from < old.num_states(),
        new.num_states() == old.num_states(),
        new.trans(from) == old.trans(from).push(crate::automata::Transition { label, next_state: to }),
        forall|q: int| 0 <= q < old.num_states() && q != from ==> new.states@[q] == old.states@[q],
    ensures
        forall|i: int, x: L::V, j: int| #[trigger] label_edge(new, i, x, j) <==> (label_edge(old, i, x, j)
            || (i == from && x == label.deep_view() && j == to)),
{
    assert forall|i: int, x: L::V, j: int| #[trigger] label_edge(new, i, x, j) <==> (label_edge(old, i, x, j)
        || (i == from && x == label.deep_view() && j == to)) by {
        if 0 <= i < old.num_states() && i != from {
            assert(new.states@[i] == old.states@[i]);
            assert(new.trans(i) == old.trans(i));
        }
        if i == from {
            let tl = old.trans(from).len();
            if label_edge(new, i, x, j) {
                let k = choose|k: int| 0 <= k < new.trans(i).len() && (#[trigger] new.trans(i)[k]).label.deep_view() == x
                    && new.trans(i)[k].next_state == j;
                if k < tl {
                    assert(old.trans(i)[k] == new.trans(i)[k]);
                }
            }
            if label_edge(old, i, x, j) {
                let k = choose|k: int| 0 <= k < old.trans(i).len() && (#[trigger] old.trans(i)[k]).label.deep_view() == x
                    && old.trans(i)[k].next_state == j;
                assert(old.trans(i)[k] == new.trans(i)[k]);
            }
            if x == label.deep_view() && j == to {
                assert(new.trans(i)[tl as int].label.deep_view() == x);
            }
        }
    }
}

impl<S: Symbol, A: ValidLabel> DFA<S, A> {
    /// The reversal of this DFA (see `is_reversal`), an automaton over one
    /// variable.
    pub fn to_reversed_nfa(&self) -> (r: Automata<A>)
        requires
            self.wf(),
            forall|k: int| 0 <= k < self.transitions@.len() ==> (#[trigger] self.transitions@[k]).1.valid_for(1),
        ensures
            is_reversal(*self, r),
    {
        let ghost sv = self.states_view();
        let ghost tv = self.trans_view();
        let ns = self.states.len();
        let mut r: Automata<A> = Automata::new(1);
        for i in 0..ns
            invariant
                self.wf(),
                sv == self.states_view(),
                ns == sv.len(),
                r.wf(),
                r.dimensions == 1,
                r.num_states() == i,
                forall|q: int| 0 <= q < i ==> (#[trigger] r.final_at(q) <==> sv[q] == self.initial_view()),
                forall|q: int| 0 <= q < i ==> (#[trigger] r.is_initial(q) <==> self.finals_view().contains(sv[q])),
                forall|j: int| 0 <= j < r.initial_states@.len() ==> #[trigger] r.initial_states@[j] < i,
                forall|q: int| 0 <= q < i ==> (#[trigger] r.trans(q)).len() == 0,
        {
            assert(self.states[i as int].deep_view() == sv[i as int]);
            let is_final = self.states[i].same_as(&self.initial);
            let is_initial = position_of(&self.finals, &self.states[i]).is_some();
            let ghost pre = r;
            let idx = r.add_state(is_initial, is_final);
            proof {
                assert forall|q: int| 0 <= q < i + 1 implies (#[trigger] r.final_at(q) <==> sv[q] == self.initial_view()) by {
                    if q < i {
                        assert(r.states@[q] == pre.states@[q]);
                        assert(pre.final_at(q) <==> sv[q] == self.initial_view());
                    } else {
                        assert(idx == q);
                    }
                }
                assert forall|q: int| 0 <= q < i + 1 implies (#[trigger] r.trans(q)).len() == 0 by {
                    if q < i {
                        assert(r.states@[q] == pre.states@[q]);
                        assert(pre.trans(q).len() == 0);
                    } else {
                        assert(idx == q);
                    }
                }
                assert forall|q: int| 0 <= q < i + 1 implies (#[trigger] r.is_initial(q) <==> self.finals_view().contains(sv[q])) by {
                    if q < i {
                        if pre.is_initial(q) {
                            let j = choose|j: int| 0 <= j < pre.initial_states@.len() && #[trigger] pre.initial_states@[j] as int == q;
                            assert(r.initial_states@[j] == pre.initial_states@[j]);
                        }
                        if r.is_initial(q) {
                            let j = choose|j: int| 0 <= j < r.initial_states@.len() && #[trigger] r.initial_states@[j] as int == q;
                            if j < pre.initial_states@.len() {
                                assert(r.initial_states@[j] == pre.initial_states@[j]);
                            }
                        }
                    } else {
                        if is_initial {
                            assert(r.initial_states@[pre.initial_states@.len() as int] == idx);
                        }
                        if r.is_initial(q) {
                            let j = choose|j: int| 0 <= j < r.initial_states@.len() && #[trigger] r.initial_states@[j] as int == q;
                            if j < pre.initial_states@.len() {
                                assert(r.initial_states@[j] == pre.initial_states@[j]);
                            }
                        }
                    }
                }
                assert forall|j: int| 0 <= j < r.initial_states@.len() implies #[trigger] r.initial_states@[j] < i + 1 by {
                    if j < pre.initial_states@.len() {
                        assert(r.initial_states@[j] == pre.initial_states@[j]);
                    }
                }
            }
        }
        proof {
            assert forall|i: int, x: A::V, j: int| 0 <= i < ns && 0 <= j < ns implies (#[trigger] label_edge(r, i, x, j)
                <==> exists|k2: int| 0 <= k2 < 0 && tv[k2] == (sv[j], x, sv[i])) by {
                if label_edge(r, i, x, j) {
                    let k = choose|k: int| 0 <= k < r.trans(i).len() && (#[trigger] r.trans(i)[k]).label.deep_view() == x
                        && r.trans(i)[k].next_state == j;
                }
            }
        }
        let ghost fixed = r;
        for k in 0..self.transitions.len()
            invariant
                self.wf(),
                sv == self.states_view(),
                tv == self.trans_view(),
                ns == sv.len(),
                forall|k: int| 0 <= k < self.transitions@.len() ==> (#[trigger] self.transitions@[k]).1.valid_for(1),
                r.wf(),
                r.dimensions == 1,
                r.num_states() == ns,
                r.initial_states == fixed.initial_states,
                forall|q: int| 0 <= q < ns ==> #[trigger] r.final_at(q) == fixed.final_at(q),
                forall|i: int, x: A::V, j: int| 0 <= i < ns && 0 <= j < ns ==> (#[trigger] label_edge(r, i, x, j)
                    <==> exists|k2: int| 0 <= k2 < k && tv[k2] == (sv[j], x, sv[i])),
        {
            let tr = &self.transitions[k];
            assert(tv[k as int] == (tr.0.deep_view(), tr.1.deep_view(), tr.2.deep_view()));
            assert(sv.contains(tv[k as int].0));
            assert(sv.contains(tv[k as int].2));
            let from = position_of(&self.states, &tr.0);
            let to = position_of(&self.states, &tr.2);
            match (from, to) {
                (Some(pf), Some(pt)) => {
                    let label = tr.1.duplicate();
                    proof {
                        tr.1.lemma_valid_for_view(&label, 1);
                    }
                    let ghost pre = r;
                    r.add_transition(pt, label, pf);
                    proof {
                        lemma_label_edge_push(pre, r, pt as int, label, pf);
                        assert forall|q: int| 0 <= q < ns implies #[trigger] r.final_at(q) == fixed.final_at(q) by {
                            assert(pre.final_at(q) == fixed.final_at(q));
                            if q != pt {
                                assert(r.states@[q] == pre.states@[q]);
                            }
                        }
                        assert forall|i: int, x: A::V, j: int| 0 <= i < ns && 0 <= j < ns implies (#[trigger] label_edge(r, i, x, j)
                            <==> exists|k2: int| 0 <= k2 < k + 1 && tv[k2] == (sv[j], x, sv[i])) by {
                            if label_edge(r, i, x, j) && !label_edge(pre, i, x, j) {
                                assert(tv[k as int] == (sv[j], x, sv[i]));
                            }
                            if exists|k2: int| 0 <= k2 < k + 1 && tv[k2] == (sv[j], x, sv[i]) {
                                let k2 = choose|k2: int| 0 <= k2 < k + 1 && tv[k2] == (sv[j], x, sv[i]);
                                if k2 == k {
                                    assert(sv[i] == sv[pt as int]);
                                    assert(sv[j] == sv[pf as int]);
                                    assert(i == pt);
                                    assert(j == pf);
                                }
                            }
                        }
                    }
                },
                _ => {
                    proof {
                        assert(false);
                    }
                },
            }
        }
        proof {
            assert forall|i: int| 0 <= i < r.num_states() implies (#[trigger] r.final_at(i) <==> sv[i] == self.initial_view()) by {
                assert(r.final_at(i) == fixed.final_at(i));
            }
            assert forall|i: int| 0 <= i < r.num_states() implies (#[trigger] r.is_initial(i) <==> self.finals_view().contains(sv[i])) by {
                assert(fixed.is_initial(i) <==> self.finals_view().contains(sv[i]));
                if r.is_initial(i) {
                    let j = choose|j: int| 0 <= j < r.initial_states@.len() && #[trigger] r.initial_states@[j] as int == i;
                    assert(fixed.initial_states@[j] as int == i);
                }
                if fixed.is_initial(i) {
                    let j = choose|j: int| 0 <= j < fixed.initial_states@.len() && #[trigger] fixed.initial_states@[j] as int == i;
                    assert(r.initial_states@[j] as int == i);
                }
            }
            assert forall|i: int, x: A::V, j: int| 0 <= i < r.num_states() && 0 <= j < r.num_states()
                implies (#[trigger] label_edge(r, i, x, j) <==> self.step(sv[j], x) == Some(sv[i])) by {
                crate::dfa::lemma_delta_found(tv, sv[j], x);
                if exists|k2: int| 0 <= k2 < tv.len() && tv[k2] == (sv[j], x, sv[i]) {
                    let k2 = choose|k2: int| 0 <= k2 < tv.len() && tv[k2] == (sv[j], x, sv[i]);
                    crate::dfa::lemma_delta_at(tv, k2);
                }
                if self.step(sv[j], x) == Some(sv[i]) {
                    let k2 = choose|k2: int| 0 <= k2 < tv.len() && #[trigger] tv[k2] == (sv[j], x, sv[i]);
                }
            }
        }
        r
    }
}

/// Reading a letter and then `u` from `q` is reading `u` from where the
/// letter leads.
proof fn lemma_run_from_prepend<S: Symbol, A: Symbol>(d: DFA<S, A>, q: S::V, x: A::V, u: Seq<A::V>)
    ensures
        d.run_from(q, seq![x] + u) == match d.step(q, x) {
            Some(q2) => d.run_from(q2, u),
            None => None,
        },
    decreases u.len(),
{
    if u.len() == 0 {
        assert(seq![x] + u =~= seq![x]);
        assert(seq![x].drop_last() =~= Seq::<A::V>::empty());
        assert(d.run_from(q, Seq::<A::V>::empty()) == Some(q));
        assert(d.run_from(q, seq![x]) == d.step(q, x));
    } else {
        lemma_run_from_prepend(d, q, x, u.drop_last());
        assert((seq![x] + u).drop_last() =~= seq![x] + u.drop_last());
        assert((seq![x] + u).last() == u.last());
    }
}

/// A run of the reversal reads `w` up to state `p` exactly when the
/// reversed word leads in `d` from the state `p` stands for to an
/// accepting state.
proof fn lemma_reversal_prefix<S: Symbol, A: ValidLabel>(d: DFA<S, A>, r: Automata<A>, w: Seq<A::V>, p: int)
    requires
        d.wf(),
        is_reversal(d, r),
        0 <= p < r.num_states(),
    ensures
        r.prefix_at(w, p) <==> exists|f: S::V| #[trigger] d.finals_view().contains(f) && d.run_from(
            d.states_view()[p],
            w.reverse(),
        ) == Some(f),
    decreases w.len(),
{
    let sv = d.states_view();
    if w.len() == 0 {
        assert(w =~= Seq::<A::V>::empty());
        r.lemma_prefix_empty(p);
        assert(w.reverse() =~= Seq::<A::V>::empty());
        if d.finals_view().contains(sv[p]) {
            assert(d.run_from(sv[p], w.reverse()) == Some(sv[p]));
        }
    } else {
        let u = w.drop_last();
        let x = w.last();
        assert(u.push(x) =~= w);
        assert(w.reverse() =~= seq![x] + u.reverse());
        lemma_run_from_prepend(d, sv[p], x, u.reverse());
        r.lemma_prefix_step(u, x, p);
        if r.prefix_at(w, p) {
            let (q, k) = choose|q: int, k: int| #[trigger] r.prefix_at(u, q) && 0 <= q < r.num_states()
                && 0 <= k < r.trans(q).len() && r.trans(q)[k].next_state == p && #[trigger] r.trans(q)[k].label.deep_view() == x;
            assert(label_edge(r, q, x, p));
            lemma_reversal_prefix(d, r, u, q);
            let f = choose|f: S::V| #[trigger] d.finals_view().contains(f) && d.run_from(sv[q], u.reverse()) == Some(f);
            assert(d.run_from(sv[p], w.reverse()) == Some(f));
        }
        if exists|f: S::V| #[trigger] d.finals_view().contains(f) && d.run_from(sv[p], w.reverse()) == Some(f) {
            let f = choose|f: S::V| #[trigger] d.finals_view().contains(f) && d.run_from(sv[p], w.reverse()) == Some(f);
            d.lemma_step_closed(sv[p], x);
            let q2 = d.step(sv[p], x)->0;
            let q = choose|q: int| 0 <= q < sv.len() && sv[q] == q2;
            assert(label_edge(r, q, x, p));
            lemma_reversal_prefix(d, r, u, q);
            assert(r.prefix_at(u, q));
            let k = choose|k: int| 0 <= k < r.trans(q).len() && (#[trigger] r.trans(q)[k]).label.deep_view() == x
                && r.trans(q)[k].next_state == p;
            assert(r.trans(q)[k].label.deep_view() == x);
        }
    }
}

/// Reversing turns the language around: the reversal of `d` accepts `w`
/// exactly when `d` accepts `w` read backwards.
pub proof fn lemma_reversal_language<S: Symbol, A: ValidLabel>(d: DFA<S, A>, r: Automata<A>, w: Seq<A::V>)
    requires
        d.wf(),
        is_reversal(d, r),
    ensures
        nfa_accepts(r, w) <==> d.accepts_word(w.reverse()),
{
    let sv = d.states_view();
    if nfa_accepts(r, w) {
        let p = choose|p: int| #[trigger] r.prefix_at(w, p) && r.final_at(p);
        assert(0 <= p < r.num_states());
        lemma_reversal_prefix(d, r, w, p);
        let f = choose|f: S::V| #[trigger] d.finals_view().contains(f) && d.run_from(sv[p], w.reverse()) == Some(f);
    }
    if d.accepts_word(w.reverse()) {
        let p = choose|p: int| 0 <= p < sv.len() && sv[p] == d.initial_view();
        lemma_reversal_prefix(d, r, w, p);
        let f = d.run(w.reverse())->0;
        assert(d.finals_view().contains(f));
        assert(r.prefix_at(w, p));
        assert(r.final_at(p));
    }
}

impl<S: Symbol, A: ValidLabel> DFA<S, A> {
    /// Brzozowski's minimization: reverse, determinize, reverse again and
    /// determinize again. The result accepts the same words as this DFA.
    pub fn minimize_brzozowski(&self) -> (r: DFA<usize, A>)
        requires
            self.wf(),
            forall|k: int| 0 <= k < self.transitions@.len() ==> (#[trigger] self.transitions@[k]).1.valid_for(1),
        ensures
            exists|r1: Automata<A>, d1: DFA<usize, A>, sets1: Seq<Seq<bool>>, r2: Automata<A>, sets2: Seq<Seq<bool>>|
                #![trigger is_reversal(*self, r1), is_subset_dfa(r1, d1, sets1), is_reversal(d1, r2), is_subset_dfa(r2, r, sets2)]
                is_reversal(*self, r1) && is_subset_dfa(r1, d1, sets1) && is_reversal(d1, r2) && is_subset_dfa(r2, r, sets2),
            forall|w: Seq<A::V>| #[trigger] r.accepts_word(w) <==> self.accepts_word(w),
    {
        let rev1 = self.to_reversed_nfa();
        let dfa1 = rev1.determinize();
        let ghost sets1 = choose|sets: Seq<Seq<bool>>| #[trigger] is_subset_dfa(rev1, dfa1, sets);
        proof {
            assert forall|k: int| 0 <= k < dfa1.transitions@.len() implies (#[trigger] dfa1.transitions@[k]).1.valid_for(1) by {
                let x = dfa1.trans_view()[k].1;
                assert(x == dfa1.transitions@[k].1.deep_view());
                assert(dfa1.states_view().contains(dfa1.trans_view()[k].0));
                assert(dfa1.alphabet_view().contains(x));
                let (q, p) = choose|q: int, p: int| #[trigger] rev1.reachable(q) && #[trigger] label_edge(rev1, q, x, p);
                let k2 = choose|k2: int| 0 <= k2 < rev1.trans(q).len() && (#[trigger] rev1.trans(q)[k2]).label.deep_view() == x
                    && rev1.trans(q)[k2].next_state == p;
                assert(rev1.trans(q)[k2].label.valid_for(1));
                rev1.trans(q)[k2].label.lemma_valid_for_view(&dfa1.transitions@[k].1, 1);
            }
        }
        let rev2 = dfa1.to_reversed_nfa();
        let result = rev2.determinize();
        proof {
            let sets2 = choose|sets: Seq<Seq<bool>>| #[trigger] is_subset_dfa(rev2, result, sets);
            assert forall|w: Seq<A::V>| #[trigger] result.accepts_word(w) <==> self.accepts_word(w) by {
                lemma_determinize_language(rev2, result, sets2, w);
                lemma_reversal_language(dfa1, rev2, w);
                lemma_determinize_language(rev1, dfa1, sets1, w.reverse());
                lemma_reversal_language(*self, rev1, w.reverse());
                assert(w.reverse().reverse() =~= w);
            }
        }
        result
    }
}

} // verus!
