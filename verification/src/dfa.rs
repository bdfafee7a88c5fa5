use vstd::prelude::*;
use crate::label::{Symbol, duplicate_all, position_of, lemma_push_contains};

verus! {

/// The target of the last transition of `ts` that leaves `q` on `a`.
pub open spec fn delta<SV, AV>(ts: Seq<(SV, AV, SV)>, q: SV, a: AV) -> Option<SV>
    decreases ts.len(),
{
    if ts.len() == 0 {
        None
    } else if ts.last().0 == q && ts.last().1 == a {
        Some(ts.last().2)
    } else {
        delta(ts.drop_last(), q, a)
    }
}

/// No two transitions of `ts` leave the same state on the same symbol.
pub open spec fn keys_distinct<SV, AV>(ts: Seq<(SV, AV, SV)>) -> bool {
    forall|i: int, j: int|
        0 <= i < ts.len() && 0 <= j < ts.len() && i != j ==> !(ts[i].0 == ts[j].0 && ts[i].1
            == ts[j].1)
}

/// No element occurs twice in `s`.
pub open spec fn distinct<T>(s: Seq<T>) -> bool {
    forall|i: int, j: int| 0 <= i < s.len() && 0 <= j < s.len() && i != j ==> s[i] != s[j]
}

/// `s` with `x` appended, unless `s` already holds it.
pub open spec fn with_member<T>(s: Seq<T>, x: T) -> Seq<T> {
    if s.contains(x) {
        s
    } else {
        s.push(x)
    }
}

/// Every letter of `w` belongs to `alphabet`.
pub open spec fn over_alphabet<AV>(w: Seq<AV>, alphabet: Seq<AV>) -> bool {
    forall|k: int| 0 <= k < w.len() ==> alphabet.contains(#[trigger] w[k])
}

pub proof fn lemma_distinct_push<T>(s: Seq<T>, x: T)
    requires
        distinct(s),
        !s.contains(x),
    ensures
        distinct(s.push(x)),
{
    assert forall|i: int, j: int| 0 <= i < s.push(x).len() && 0 <= j < s.push(x).len() && i != j
        implies s.push(x)[i] != s.push(x)[j] by {
        if i < s.len() && j < s.len() {
        } else if i < s.len() {
            assert(s.contains(s[i]));
        } else {
            assert(s.contains(s[j]));
        }
    }
}

pub proof fn lemma_delta_found<SV, AV>(ts: Seq<(SV, AV, SV)>, q: SV, a: AV)
    ensures
        delta(ts, q, a) matches Some(t) ==> exists|i: int|
            0 <= i < ts.len() && #[trigger] ts[i] == (q, a, t),
        delta(ts, q, a) is None ==> forall|i: int|
            0 <= i < ts.len() ==> !(#[trigger] ts[i].0 == q && ts[i].1 == a),
    decreases ts.len(),
{
    if ts.len() > 0 {
        lemma_delta_found(ts.drop_last(), q, a);
        if !(ts.last().0 == q && ts.last().1 == a) {
            if let Some(t) = delta(ts, q, a) {
                let i = choose|i: int| 0 <= i < ts.drop_last().len() && ts.drop_last()[i] == (q, a, t);
                assert(ts[i] == (q, a, t));
            } else {
                assert forall|i: int| 0 <= i < ts.len() implies !(#[trigger] ts[i].0 == q && ts[i].1 == a) by {
                    if i < ts.len() - 1 {
                        assert(ts[i] == ts.drop_last()[i]);
                    }
                }
            }
        } else {
            assert(ts[ts.len() - 1] == (q, a, ts.last().2));
        }
    }
}

pub proof fn lemma_delta_at<SV, AV>(ts: Seq<(SV, AV, SV)>, j: int)
    requires
        0 <= j < ts.len(),
        keys_distinct(ts),
    ensures
        delta(ts, ts[j].0, ts[j].1) == Some(ts[j].2),
    decreases ts.len(),
{
    if j < ts.len() - 1 {
        assert(ts.drop_last()[j] == ts[j]);
        lemma_delta_at(ts.drop_last(), j);
        assert(!(ts.last().0 == ts[j].0 && ts.last().1 == ts[j].1));
    }
}

pub proof fn lemma_delta_push<SV, AV>(ts: Seq<(SV, AV, SV)>, t: (SV, AV, SV), q: SV, a: AV)
    ensures
        delta(ts.push(t), q, a) == if t.0 == q && t.1 == a {
            Some(t.2)
        } else {
            delta(ts, q, a)
        },
{
    assert(ts.push(t).drop_last() =~= ts);
}

pub proof fn lemma_delta_update<SV, AV>(ts: Seq<(SV, AV, SV)>, i: int, t: (SV, AV, SV), q: SV, a: AV)
    requires
        0 <= i < ts.len(),
        keys_distinct(ts),
        ts[i].0 == t.0,
        ts[i].1 == t.1,
    ensures
        keys_distinct(ts.update(i, t)),
        delta(ts.update(i, t), q, a) == if t.0 == q && t.1 == a {
            Some(t.2)
        } else {
            delta(ts, q, a)
        },
{
    let us = ts.update(i, t);
    assert(keys_distinct(us));
    if t.0 == q && t.1 == a {
        lemma_delta_at(us, i);
    } else {
        lemma_delta_found(ts, q, a);
        match delta(ts, q, a) {
            Some(r) => {
                let j = choose|j: int| 0 <= j < ts.len() && ts[j] == (q, a, r);
                assert(j != i);
                assert(us[j] == ts[j]);
                lemma_delta_at(us, j);
            },
            None => {
                assert forall|k: int| 0 <= k < us.len() implies !(us[k].0 == q && us[k].1 == a) by {
                    if k != i {
                        assert(us[k] == ts[k]);
                    }
                }
                lemma_delta_found(us, q, a);
            },
        }
    }
}

/// A deterministic finite automaton over symbols `A` with states `S`. The
/// transition function is partial: a word with no run is rejected.
#[derive(Debug)]
pub struct DFA<S, A> {
    /// All the states.
    pub states: Vec<S>,
    /// The input alphabet.
    pub alphabet: Vec<A>,
    /// The initial state.
    pub initial: S,
    /// The accepting states.
    pub finals: Vec<S>,
    /// The transitions, as (state, symbol, next state).
    pub transitions: Vec<(S, A, S)>,
}

impl<S: Symbol, A: Symbol> DFA<S, A> {
    pub open spec fn states_view(&self) -> Seq<S::V> {
        self.states.deep_view()
    }

    pub open spec fn alphabet_view(&self) -> Seq<A::V> {
        self.alphabet.deep_view()
    }

    pub open spec fn finals_view(&self) -> Seq<S::V> {
        self.finals.deep_view()
    }

    pub open spec fn trans_view(&self) -> Seq<(S::V, A::V, S::V)> {
        self.transitions.deep_view()
    }

    pub open spec fn initial_view(&self) -> S::V {
        self.initial.deep_view()
    }

    /// The state reached from `q` on `a`, if the transition is defined.
    pub open spec fn step(&self, q: S::V, a: A::V) -> Option<S::V> {
        delta(self.trans_view(), q, a)
    }

    /// The state reached from `q` after reading `w`, if every step is defined.
    pub open spec fn run_from(&self, q: S::V, w: Seq<A::V>) -> Option<S::V>
        decreases w.len(),
    {
        if w.len() == 0 {
            Some(q)
        } else {
            match self.run_from(q, w.drop_last()) {
                Some(p) => self.step(p, w.last()),
                None => None,
            }
        }
    }

    /// The state reached from the initial state after reading `w`.
    pub open spec fn run(&self, w: Seq<A::V>) -> Option<S::V> {
        self.run_from(self.initial_view(), w)
    }

    /// The language of the automaton.
    pub open spec fn accepts_word(&self, w: Seq<A::V>) -> bool {
        match self.run(w) {
            Some(q) => self.finals_view().contains(q),
            None => false,
        }
    }

    /// The structural invariant: no duplicates, every state that occurs is
    /// listed, and transitions use symbols of the alphabet.
    pub open spec fn wf(&self) -> bool {
        &&& distinct(self.states_view())
        &&& distinct(self.alphabet_view())
        &&& distinct(self.finals_view())
        &&& keys_distinct(self.trans_view())
        &&& self.states_view().contains(self.initial_view())
        &&& forall|q: S::V| #[trigger] self.finals_view().contains(q) ==> self.states_view().contains(q)
        &&& forall|i: int|
            0 <= i < self.trans_view().len() ==> {
                &&& self.states_view().contains(#[trigger] self.trans_view()[i].0)
                &&& self.alphabet_view().contains(self.trans_view()[i].1)
                &&& self.states_view().contains(self.trans_view()[i].2)
            }
    }

    /// Every state has a transition on every symbol of the alphabet.
    pub open spec fn is_complete(&self) -> bool {
        forall|q: S::V, a: A::V|
            self.states_view().contains(q) && self.alphabet_view().contains(a) ==> (#[trigger] self.step(
                q,
                a,
            )) is Some
    }

    /// Creates a DFA with the single, non-accepting state `initial`.
    pub fn new(initial: S, alphabet: Vec<A>) -> (r: Self)
        requires
            distinct(alphabet.deep_view()),
        ensures
            r.wf(),
            r.states_view() == seq![initial.deep_view()],
            r.initial_view() == initial.deep_view(),
            r.alphabet_view() == alphabet.deep_view(),
            r.finals_view() == Seq::<S::V>::empty(),
            r.trans_view() == Seq::<(S::V, A::V, S::V)>::empty(),
    {
        let mut states = Vec::new();
        states.push(initial.duplicate());
        let r = DFA { states, alphabet, initial, finals: Vec::new(), transitions: Vec::new() };
        assert(r.states_view() =~= seq![r.initial_view()]);
        assert(r.states_view()[0] == r.initial_view());
        assert(r.finals_view() =~= Seq::<S::V>::empty());
        assert(r.trans_view() =~= Seq::<(S::V, A::V, S::V)>::empty());
        r
    }

    /// Adds a state, which is not accepting. Returns whether it was new.
    pub fn add_state(&mut self, s: S) -> (r: bool)
        requires
            old(self).wf(),
        ensures
            final(self).wf(),
            r == !old(self).states_view().contains(s.deep_view()),
            final(self).states_view() == if r {
                old(self).states_view().push(s.deep_view())
            } else {
                old(self).states_view()
            },
            forall|q: S::V| #[trigger] final(self).states_view().contains(q) <==> (old(self).states_view().contains(q)
                || q == s.deep_view()),
            final(self).alphabet_view() == old(self).alphabet_view(),
            final(self).finals_view() == old(self).finals_view(),
            final(self).trans_view() == old(self).trans_view(),
            final(self).initial_view() == old(self).initial_view(),
    {
        match position_of(&self.states, &s) {
            Some(_) => {
                false
            },
            None => {
                let ghost old_states = self.states_view();
                let ghost sv = s.deep_view();
                self.states.push(s);
                assert(self.states_view() =~= old_states.push(sv));
                proof {
                    lemma_push_contains(old_states, sv);
                    lemma_distinct_push(old_states, sv);
                }
                true
            },
        }
    }

    /// Marks `s` as accepting, adding it to the states if needed.
    pub fn set_final(&mut self, s: S)
        requires
            old(self).wf(),
        ensures
            final(self).wf(),
            final(self).states_view() == with_member(old(self).states_view(), s.deep_view()),
            forall|q: S::V| #[trigger] final(self).states_view().contains(q) <==> (old(self).states_view().contains(q)
                || q == s.deep_view()),
            forall|q: S::V| #[trigger] final(self).finals_view().contains(q) <==> (old(self).finals_view().contains(q)
                || q == s.deep_view()),
            final(self).alphabet_view() == old(self).alphabet_view(),
            final(self).trans_view() == old(self).trans_view(),
            final(self).initial_view() == old(self).initial_view(),
    {
        let s2 = s.duplicate();
        self.add_state(s2);
        let ghost old_finals = self.finals_view();
        let ghost sv = s.deep_view();
        match position_of(&self.finals, &s) {
            Some(_) => {
            },
            None => {
                self.finals.push(s);
                assert(self.finals_view() =~= old_finals.push(sv));
                proof {
                    lemma_push_contains(old_finals, sv);
                    lemma_distinct_push(old_finals, sv);
                }
            },
        }
    }

    /// The position of the transition leaving `q` on `a`, if there is one.
    pub fn find_transition(&self, q: &S, a: &A) -> (r: Option<usize>)
        requires
            keys_distinct(self.trans_view()),
        ensures
            match r {
                Some(i) => i < self.trans_view().len() && self.trans_view()[i as int].0 == q.deep_view()
                    && self.trans_view()[i as int].1 == a.deep_view() && self.step(
                    q.deep_view(),
                    a.deep_view(),
                ) == Some(self.trans_view()[i as int].2),
                None => self.step(q.deep_view(), a.deep_view()) is None,
            },
    {
        let ghost ts = self.trans_view();
        for i in 0..self.transitions.len()
            invariant
                ts == self.trans_view(),
                keys_distinct(ts),
                forall|k: int| 0 <= k < i ==> !(ts[k].0 == q.deep_view() && ts[k].1 == a.deep_view()),
        {
            assert(ts[i as int] == (self.transitions[i as int].0.deep_view(), self.transitions[i as int].1.deep_view(), self.transitions[i as int].2.deep_view()));
            if self.transitions[i].0.same_as(q) && self.transitions[i].1.same_as(a) {
                proof {
                    lemma_delta_at(ts, i as int);
                }
                return Some(i);
            }
        }
        proof {
            lemma_delta_found(ts, q.deep_view(), a.deep_view());
            if let Some(t) = delta(ts, q.deep_view(), a.deep_view()) {
                let k = choose|k: int| 0 <= k < ts.len() && ts[k] == (q.deep_view(), a.deep_view(), t);
                assert(false);
            }
        }
        None
    }

    /// Sets the transition leaving `from` on `sym` to `to`, replacing an
    /// existing one, and adds `from` and `to` to the states.
    pub fn add_transition(&mut self, from: S, sym: A, to: S)
        requires
            old(self).wf(),
            old(self).alphabet_view().contains(sym.deep_view()),
        ensures
            final(self).wf(),
            final(self).states_view() == with_member(
                with_member(old(self).states_view(), from.deep_view()),
                to.deep_view(),
            ),
            forall|q: S::V| #[trigger] final(self).states_view().contains(q) <==> (old(self).states_view().contains(q)
                || q == from.deep_view() || q == to.deep_view()),
            old(self).states_view().contains(from.deep_view()) && old(self).states_view().contains(
                to.deep_view(),
            ) ==> final(self).states_view() == old(self).states_view(),
            forall|q: S::V, a: A::V|
                #[trigger] final(self).step(q, a) == if q == from.deep_view() && a == sym.deep_view() {
                    Some(to.deep_view())
                } else {
                    old(self).step(q, a)
                },
            final(self).alphabet_view() == old(self).alphabet_view(),
            final(self).finals_view() == old(self).finals_view(),
            final(self).initial_view() == old(self).initial_view(),
    {
        self.add_state(from.duplicate());
        self.add_state(to.duplicate());
        let ghost mid = self.trans_view();
        let ghost mid_self = *self;
        let ghost fv = from.deep_view();
        let ghost tv = to.deep_view();
        let ghost sv = sym.deep_view();
        assert(self.states_view().contains(fv));
        assert(self.states_view().contains(tv));
        match self.find_transition(&from, &sym) {
            Some(i) => {
                self.transitions.set(i, (from, sym, to));
                proof {
                    assert(self.trans_view() =~= mid.update(i as int, (fv, sv, tv)));
                    assert forall|q: S::V, a: A::V|
                        #[trigger] self.step(q, a) == if q == fv && a == sv { Some(tv) } else {
                            old(self).step(q, a)
                        } by {
                        lemma_delta_update(mid, i as int, (fv, sv, tv), q, a);
                    }
                    lemma_delta_update(mid, i as int, (fv, sv, tv), fv, sv);
                }
            },
            None => {
                self.transitions.push((from, sym, to));
                proof {
                    assert(self.trans_view() =~= mid.push((fv, sv, tv)));
                    assert forall|q: S::V, a: A::V|
                        #[trigger] self.step(q, a) == if q == fv && a == sv { Some(tv) } else {
                            old(self).step(q, a)
                        } by {
                        lemma_delta_push(mid, (fv, sv, tv), q, a);
                    }
                    lemma_delta_found(mid, fv, sv);
                    assert(keys_distinct(self.trans_view()));
                }
            },
        }
        proof {
            let ts = self.trans_view();
            assert forall|i: int| 0 <= i < ts.len() implies {
                &&& self.states_view().contains(#[trigger] ts[i].0)
                &&& self.alphabet_view().contains(ts[i].1)
                &&& self.states_view().contains(ts[i].2)
            } by {
                if ts[i] != (fv, sv, tv) {
                    assert(i < mid.len() && ts[i] == mid[i]);
                    assert(mid_self.wf());
                    assert(mid_self.states_view().contains(mid[i].0));
                }
            }
        }
    }

    /// Whether the automaton accepts `input`.
    pub fn accepts(&self, input: &[A]) -> (r: bool)
        requires
            keys_distinct(self.trans_view()),
        ensures
            r == self.accepts_word(input.deep_view()),
    {
        let ghost w = input.deep_view();
        let mut current = self.initial.duplicate();
        let mut i: usize = 0;
        while i < input.len()
            invariant
                i <= input.len(),
                w == input.deep_view(),
                keys_distinct(self.trans_view()),
                self.run(w.take(i as int)) == Some(current.deep_view()),
            decreases input.len() - i,
        {
            proof {
                assert(w.take(i + 1).drop_last() =~= w.take(i as int));
            }
            match self.find_transition(&current, &input[i]) {
                Some(k) => {
                    current = self.transitions[k].2.duplicate();
                },
                None => {
                    proof {
                        self.lemma_run_dead(w, (i + 1) as int);
                    }
                    return false;
                },
            }
            i = i + 1;
        }
        proof {
            assert(w.take(i as int) =~= w);
        }
        match position_of(&self.finals, &current) {
            Some(_) => true,
            None => false,
        }
    }


    /// Once the run dies it stays dead.
    pub proof fn lemma_run_dead(&self, w: Seq<A::V>, n: int)
        requires
            0 <= n <= w.len(),
            self.run(w.take(n)) is None,
        ensures
            self.run(w) is None,
        decreases w.len() - n,
    {
        if n < w.len() {
            assert(w.take(n + 1).drop_last() =~= w.take(n));
            self.lemma_run_dead(w, n + 1);
        } else {
            assert(w.take(n) =~= w);
        }
    }
}


impl<S: Symbol, A: Symbol> DFA<S, A> {
    /// Steps of a well-formed automaton lead from listed states to listed
    /// states, on symbols of the alphabet only.
    pub proof fn lemma_step_closed(&self, q: S::V, a: A::V)
        requires
            self.wf(),
        ensures
            self.step(q, a) matches Some(t) ==> self.states_view().contains(t)
                && self.states_view().contains(q) && self.alphabet_view().contains(a),
    {
        lemma_delta_found(self.trans_view(), q, a);
        if let Some(t) = self.step(q, a) {
            let i = choose|i: int| 0 <= i < self.trans_view().len() && self.trans_view()[i] == (q, a, t);
            assert(self.states_view().contains(self.trans_view()[i].0));
        }
    }

    /// Runs of a well-formed automaton stay among its states.
    pub proof fn lemma_run_closed(&self, q: S::V, w: Seq<A::V>)
        requires
            self.wf(),
            self.states_view().contains(q),
        ensures
            self.run_from(q, w) matches Some(p) ==> self.states_view().contains(p),
        decreases w.len(),
    {
        if w.len() > 0 {
            self.lemma_run_closed(q, w.drop_last());
            if let Some(p) = self.run_from(q, w.drop_last()) {
                self.lemma_step_closed(p, w.last());
            }
        }
    }

    /// A complete automaton has a run on every word over its alphabet.
    pub proof fn lemma_run_total(&self, q: S::V, w: Seq<A::V>)
        requires
            self.wf(),
            self.is_complete(),
            self.states_view().contains(q),
            over_alphabet(w, self.alphabet_view()),
        ensures
            self.run_from(q, w) is Some,
        decreases w.len(),
    {
        if w.len() > 0 {
            assert(over_alphabet(w.drop_last(), self.alphabet_view())) by {
                assert forall|k: int| 0 <= k < w.drop_last().len() implies self.alphabet_view().contains(
                    #[trigger] w.drop_last()[k],
                ) by {
                    assert(w.drop_last()[k] == w[k]);
                }
            }
            self.lemma_run_total(q, w.drop_last());
            self.lemma_run_closed(q, w.drop_last());
            assert(self.alphabet_view().contains(w[w.len() - 1]));
            let p = self.run_from(q, w.drop_last()).unwrap();
            assert(self.step(p, w.last()) is Some);
        }
    }
}

/// Two automata with the same transitions have the same runs.
pub proof fn lemma_same_runs<S: Symbol, A: Symbol>(d1: &DFA<S, A>, d2: &DFA<S, A>, q: S::V, w: Seq<A::V>)
    requires
        d1.trans_view() == d2.trans_view(),
    ensures
        d1.run_from(q, w) == d2.run_from(q, w),
    decreases w.len(),
{
    if w.len() > 0 {
        lemma_same_runs(d1, d2, q, w.drop_last());
    }
}

/// Removes a key that is absent keeps the keys distinct when pushing it.
pub proof fn lemma_keys_distinct_push<SV, AV>(ts: Seq<(SV, AV, SV)>, t: (SV, AV, SV))
    requires
        keys_distinct(ts),
        delta(ts, t.0, t.1) is None,
    ensures
        keys_distinct(ts.push(t)),
{
    lemma_delta_found(ts, t.0, t.1);
    let us = ts.push(t);
    assert forall|i: int, j: int| 0 <= i < us.len() && 0 <= j < us.len() && i != j implies !(
    us[i].0 == us[j].0 && us[i].1 == us[j].1) by {
        if i < ts.len() && j < ts.len() {
            assert(us[i] == ts[i] && us[j] == ts[j]);
        } else if i < ts.len() {
            assert(us[i] == ts[i]);
        } else {
            assert(us[j] == ts[j]);
        }
    }
}

impl<S: Symbol, A: Symbol> DFA<S, A> {
    /// The complement of a complete automaton: the same automaton with the
    /// accepting and the other states exchanged.
    pub fn negate(&self) -> (r: DFA<S, A>)
        requires
            self.wf(),
            self.is_complete(),
        ensures
            r.wf(),
            r.is_complete(),
            r.states_view() == self.states_view(),
            r.alphabet_view() == self.alphabet_view(),
            r.initial_view() == self.initial_view(),
            r.trans_view() == self.trans_view(),
            forall|q: S::V| #[trigger] r.finals_view().contains(q) <==> (self.states_view().contains(q)
                && !self.finals_view().contains(q)),
            forall|w: Seq<A::V>| over_alphabet(w, self.alphabet_view()) ==> (#[trigger] r.accepts_word(w)
                <==> !self.accepts_word(w)),
    {
        let mut finals: Vec<S> = Vec::new();
        let ghost sv = self.states_view();
        let ghost fv = self.finals_view();
        for i in 0..self.states.len()
            invariant
                sv == self.states_view(),
                fv == self.finals_view(),
                distinct(sv),
                forall|q: S::V| #[trigger] finals.deep_view().contains(q) <==> (sv.take(i as int).contains(q)
                    && !fv.contains(q)),
                distinct(finals.deep_view()),
        {
            let ghost old_f = finals.deep_view();
            let ghost x = sv[i as int];
            proof {
                assert(sv.take(i + 1) =~= sv.take(i as int).push(x));
                lemma_push_contains(sv.take(i as int), x);
            }
            match position_of(&self.finals, &self.states[i]) {
                Some(_) => {},
                None => {
                    finals.push(self.states[i].duplicate());
                    proof {
                        assert(finals.deep_view() =~= old_f.push(x));
                        lemma_push_contains(old_f, x);
                        assert(!sv.take(i as int).contains(x)) by {
                            if sv.take(i as int).contains(x) {
                                let k = choose|k: int| 0 <= k < i && sv.take(i as int)[k] == x;
                                assert(sv[k] == sv[i as int]);
                            }
                        }
                        lemma_distinct_push(old_f, x);
                    }
                },
            }
        }
        proof {
            assert(sv.take(sv.len() as int) =~= sv);
        }
        let r = DFA {
            states: duplicate_all(&self.states),
            alphabet: duplicate_all(&self.alphabet),
            initial: self.initial.duplicate(),
            finals,
            transitions: self.duplicate_transitions(),
        };
        proof {
            assert forall|q: S::V, a: A::V|
                r.states_view().contains(q) && r.alphabet_view().contains(a) implies (
            #[trigger] r.step(q, a)) is Some by {
                assert(r.step(q, a) == self.step(q, a));
            }
            assert forall|w: Seq<A::V>| over_alphabet(w, self.alphabet_view()) implies (
            #[trigger] r.accepts_word(w) <==> !self.accepts_word(w)) by {
                lemma_same_runs(&r, self, self.initial_view(), w);
                self.lemma_run_total(self.initial_view(), w);
                self.lemma_run_closed(self.initial_view(), w);
            }
        }
        r
    }

    /// A copy of the automaton.
    pub fn duplicate(&self) -> (r: DFA<S, A>)
        ensures
            r.states_view() == self.states_view(),
            r.alphabet_view() == self.alphabet_view(),
            r.initial_view() == self.initial_view(),
            r.finals_view() == self.finals_view(),
            r.trans_view() == self.trans_view(),
    {
        DFA {
            states: duplicate_all(&self.states),
            alphabet: duplicate_all(&self.alphabet),
            initial: self.initial.duplicate(),
            finals: duplicate_all(&self.finals),
            transitions: self.duplicate_transitions(),
        }
    }

    /// A copy of the transitions.
    pub fn duplicate_transitions(&self) -> (r: Vec<(S, A, S)>)
        ensures
            r.deep_view() == self.trans_view(),
    {
        let mut r: Vec<(S, A, S)> = Vec::new();
        for i in 0..self.transitions.len()
            invariant
                r.len() == i,
                i <= self.transitions.len(),
                forall|k: int| 0 <= k < i ==> r@[k].deep_view() == self.transitions@[k].deep_view(),
        {
            let t = &self.transitions[i];
            r.push((t.0.duplicate(), t.1.duplicate(), t.2.duplicate()));
        }
        assert(r.deep_view() =~= self.trans_view());
        r
    }

    /// Makes the automaton complete: every missing transition on a symbol of
    /// the alphabet goes to `sink_label`, which is added as a state, and
    /// every transition from the sink loops back to it.
    #[verifier::spinoff_prover]
    pub fn make_complete(&mut self, sink_label: S)
        requires
            old(self).wf(),
        ensures
            final(self).wf(),
            final(self).is_complete(),
            forall|q: S::V| #[trigger] final(self).states_view().contains(q) <==> (old(self).states_view().contains(q)
                || q == sink_label.deep_view()),
            final(self).alphabet_view() == old(self).alphabet_view(),
            final(self).finals_view() == old(self).finals_view(),
            final(self).initial_view() == old(self).initial_view(),
            forall|q: S::V, a: A::V| #[trigger] final(self).step(q, a) == if q == sink_label.deep_view()
                && old(self).alphabet_view().contains(a) {
                Some(sink_label.deep_view())
            } else if old(self).states_view().contains(q) && old(self).alphabet_view().contains(a)
                && old(self).step(q, a) is None {
                Some(sink_label.deep_view())
            } else {
                old(self).step(q, a)
            },
            !old(self).states_view().contains(sink_label.deep_view()) ==> forall|w: Seq<A::V>|
                #[trigger] final(self).accepts_word(w) == old(self).accepts_word(w),
    {
        let ghost sink = sink_label.deep_view();
        self.add_state(sink_label.duplicate());
        let ghost base = *self;
        let snapshot = duplicate_all(&self.states);
        let ghost snap = snapshot.deep_view();
        let ghost alph = self.alphabet_view();
        for i in 0..snapshot.len()
            invariant
                self.wf(),
                snap == snapshot.deep_view(),
                snap == self.states_view(),
                alph == self.alphabet_view(),
                self.states_view() == base.states_view(),
                self.finals_view() == base.finals_view(),
                self.initial_view() == base.initial_view(),
                base.wf(),
                base.alphabet_view() == alph,
                base.states_view().contains(sink),
                sink == sink_label.deep_view(),
                forall|q: S::V, a: A::V| #[trigger] self.step(q, a) == if snap.take(i as int).contains(q)
                    && alph.contains(a) && base.step(q, a) is None {
                    Some(sink)
                } else {
                    base.step(q, a)
                },
        {
            let ghost qv = snap[i as int];
            let n_alpha = self.alphabet.len();
            for j in 0..n_alpha
                invariant
                    n_alpha == alph.len(),
                    self.wf(),
                    i < snap.len(),
                    qv == snap[i as int],
                    snap == snapshot.deep_view(),
                    snap == self.states_view(),
                    alph == self.alphabet_view(),
                    self.states_view() == base.states_view(),
                    self.finals_view() == base.finals_view(),
                    self.initial_view() == base.initial_view(),
                    base.wf(),
                    base.alphabet_view() == alph,
                    base.states_view().contains(sink),
                    sink == sink_label.deep_view(),
                    forall|q: S::V, a: A::V| #[trigger] self.step(q, a) == if (snap.take(i as int).contains(q)
                        || (q == qv && alph.take(j as int).contains(a))) && alph.contains(a) && base.step(q, a) is None {
                        Some(sink)
                    } else {
                        base.step(q, a)
                    },
            {
                let ghost av = alph[j as int];
                proof {
                    assert(alph.take(j + 1) =~= alph.take(j as int).push(av));
                    lemma_push_contains(alph.take(j as int), av);
                    assert(alph.contains(av)) by {
                        assert(alph[j as int] == av);
                    }
                    assert(snap.contains(qv)) by {
                        assert(snap[i as int] == qv);
                    }
                    assert(!snap.take(i as int).contains(qv)) by {
                        if snap.take(i as int).contains(qv) {
                            let k = choose|k: int| 0 <= k < i && snap.take(i as int)[k] == qv;
                            assert(snap[k] == snap[i as int]);
                        }
                    }
                    assert(!alph.take(j as int).contains(av)) by {
                        if alph.take(j as int).contains(av) {
                            let k = choose|k: int| 0 <= k < j && alph.take(j as int)[k] == av;
                            assert(alph[k] == alph[j as int]);
                        }
                    }
                }
                let ghost before = *self;
                match self.find_transition(&snapshot[i], &self.alphabet[j]) {
                    Some(_) => {
                        proof {
                            assert(base.step(qv, av) is Some) by {
                                if base.step(qv, av) is None {
                                    assert(self.step(qv, av) == Some(sink) || self.step(qv, av) is None);
                                }
                            }
                        }
                    },
                    None => {
                        let ghost mid = self.trans_view();
                        let ghost mid_self = *self;
                        let t = (snapshot[i].duplicate(), self.alphabet[j].duplicate(), sink_label.duplicate());
                        self.transitions.push(t);
                        proof {
                            assert(self.trans_view() =~= mid.push((qv, av, sink)));
                            lemma_keys_distinct_push(mid, (qv, av, sink));
                            assert forall|q: S::V, a: A::V| #[trigger] self.step(q, a) == delta(
                                mid.push((qv, av, sink)),
                                q,
                                a,
                            ) by {}
                            assert forall|q: S::V, a: A::V| #[trigger] delta(mid.push((qv, av, sink)), q, a)
                                == if qv == q && av == a { Some(sink) } else { delta(mid, q, a) } by {
                                lemma_delta_push(mid, (qv, av, sink), q, a);
                            }
                            assert(before.step(qv, av) is None);
                            assert(base.step(qv, av) is None);
                            let ts = self.trans_view();
                            assert forall|k: int| 0 <= k < ts.len() implies {
                                &&& self.states_view().contains(#[trigger] ts[k].0)
                                &&& self.alphabet_view().contains(ts[k].1)
                                &&& self.states_view().contains(ts[k].2)
                            } by {
                                if k < mid.len() {
                                    assert(ts[k] == mid[k]);
                                    assert(mid_self.wf());
                                    assert(mid_self.states_view().contains(mid[k].0));
                                }
                            }
                            assert(self.states_view() == mid_self.states_view());
                            assert(self.alphabet_view() == mid_self.alphabet_view());
                            assert(self.finals_view() == mid_self.finals_view());
                            assert(self.initial_view() == mid_self.initial_view());
                            assert(keys_distinct(self.trans_view()));
                            assert(self.wf());
                        }
                    },
                }
                proof {
                    assert forall|q: S::V, a: A::V| #[trigger] self.step(q, a) == if (snap.take(i as int).contains(q)
                        || (q == qv && alph.take(j + 1).contains(a))) && alph.contains(a) && base.step(q, a) is None {
                        Some(sink)
                    } else {
                        base.step(q, a)
                    } by {
                        if q == qv && a == av {
                        } else {
                            assert(self.step(q, a) == before.step(q, a));
                        }
                    }
                }
            }
            proof {
                assert(snap.take(i + 1) =~= snap.take(i as int).push(qv));
                lemma_push_contains(snap.take(i as int), qv);
                assert(alph.take(alph.len() as int) =~= alph);
            }
        }
        proof {
            assert(snap.take(snap.len() as int) =~= snap);
        }
        let ghost phase1 = *self;
        let n_alpha = self.alphabet.len();
        for j in 0..n_alpha
            invariant
                n_alpha == alph.len(),
                self.wf(),
                alph == self.alphabet_view(),
                self.states_view() == base.states_view(),
                self.finals_view() == base.finals_view(),
                self.initial_view() == base.initial_view(),
                base.states_view().contains(sink),
                sink == sink_label.deep_view(),
                forall|q: S::V, a: A::V| #[trigger] self.step(q, a) == if q == sink && alph.take(j as int).contains(a) {
                    Some(sink)
                } else {
                    phase1.step(q, a)
                },
        {
            let ghost av = alph[j as int];
            proof {
                assert(alph.take(j + 1) =~= alph.take(j as int).push(av));
                lemma_push_contains(alph.take(j as int), av);
                assert(alph.contains(av)) by {
                    assert(alph[j as int] == av);
                }
            }
            let a = self.alphabet[j].duplicate();
            self.add_transition(sink_label.duplicate(), a, sink_label.duplicate());
        }
        proof {
            assert(alph.take(alph.len() as int) =~= alph);
            assert forall|q: S::V| #[trigger] self.states_view().contains(q) <==> (old(self).states_view().contains(q)
                || q == sink_label.deep_view()) by {}
            assert forall|q: S::V, a: A::V|
                self.states_view().contains(q) && self.alphabet_view().contains(a) implies (
            #[trigger] self.step(q, a)) is Some by {}
            assert forall|q: S::V, a: A::V| #[trigger] self.step(q, a) == if q == sink
                && old(self).alphabet_view().contains(a) {
                Some(sink)
            } else if old(self).states_view().contains(q) && old(self).alphabet_view().contains(a)
                && old(self).step(q, a) is None {
                Some(sink)
            } else {
                old(self).step(q, a)
            } by {
                assert(base.trans_view() == old(self).trans_view());
            }
            if !old(self).states_view().contains(sink) {
                assert forall|w: Seq<A::V>| #[trigger] self.accepts_word(w) == old(self).accepts_word(w) by {
                    lemma_completion_runs(old(self), self, sink, w);
                    old(self).lemma_run_closed(old(self).initial_view(), w);
                }
            }
        }
    }
}

/// The runs of an automaton completed with a fresh sink: where the old run
/// exists the new one is the same, elsewhere the new run is dead or in the sink.
pub proof fn lemma_completion_runs<S: Symbol, A: Symbol>(
    old_dfa: &DFA<S, A>,
    new_dfa: &DFA<S, A>,
    sink: S::V,
    w: Seq<A::V>,
)
    requires
        old_dfa.wf(),
        !old_dfa.states_view().contains(sink),
        new_dfa.initial_view() == old_dfa.initial_view(),
        forall|q: S::V, a: A::V| #[trigger] new_dfa.step(q, a) == if q == sink
            && old_dfa.alphabet_view().contains(a) {
            Some(sink)
        } else if old_dfa.states_view().contains(q) && old_dfa.alphabet_view().contains(a)
            && old_dfa.step(q, a) is None {
            Some(sink)
        } else {
            old_dfa.step(q, a)
        },
    ensures
        match old_dfa.run(w) {
            Some(q) => new_dfa.run(w) == Some(q),
            None => new_dfa.run(w) is None || new_dfa.run(w) == Some(sink),
        },
    decreases w.len(),
{
    if w.len() > 0 {
        let u = w.drop_last();
        let a = w.last();
        lemma_completion_runs(old_dfa, new_dfa, sink, u);
        old_dfa.lemma_run_closed(old_dfa.initial_view(), u);
        match old_dfa.run(u) {
            Some(p) => {
                assert(p != sink);
            },
            None => {
                old_dfa.lemma_step_closed(sink, a);
            },
        }
    }
}

} // verus!
