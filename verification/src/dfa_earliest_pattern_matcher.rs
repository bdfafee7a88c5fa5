use vstd::prelude::*;
use crate::dfa::{DFA, keys_distinct};
use crate::label::Symbol;

verus! {

/// The run of `d` on the suffix of `w` that starts at `i` ends in `q`.
pub open spec fn reaches<S: Symbol, A: Symbol>(d: DFA<S, A>, w: Seq<A::V>, i: int, q: S::V) -> bool {
    0 <= i <= w.len() && d.run(w.subrange(i, w.len() as int)) == Some(q)
}

/// A match of `d` ends at the end of `w` and starts at `i`.
pub open spec fn match_starts_at<S: Symbol, A: Symbol>(d: DFA<S, A>, w: Seq<A::V>, i: int) -> bool {
    0 <= i < w.len() && d.accepts_word(w.subrange(i, w.len() as int))
}

/// Some run of `d` that started at `i` is still alive at the end of `w`.
pub open spec fn alive_from<S: Symbol, A: Symbol>(d: DFA<S, A>, w: Seq<A::V>, i: int) -> bool {
    0 <= i < w.len() && d.run(w.subrange(i, w.len() as int)) is Some
}

/// `c` maps each state to the earliest position `i < limit` from which the
/// run on the rest of `w` reaches it, and holds every state so reached.
pub open spec fn config_ok<S: Symbol, A: Symbol>(
    d: DFA<S, A>,
    w: Seq<A::V>,
    c: Seq<(S::V, usize)>,
    limit: int,
) -> bool {
    &&& forall|m1: int, m2: int|
        0 <= m1 < c.len() && 0 <= m2 < c.len() && m1 != m2 ==> c[m1].0 != c[m2].0
    &&& forall|m: int|
        0 <= m < c.len() ==> {
            &&& #[trigger] c[m].1 < limit
            &&& reaches(d, w, c[m].1 as int, c[m].0)
            &&& forall|j: int| 0 <= j < c[m].1 ==> !reaches(d, w, j, c[m].0)
        }
    &&& forall|i: int, q: S::V|
        0 <= i < limit && #[trigger] reaches(d, w, i, q) ==> exists|m: int|
            0 <= m < c.len() && c[m].0 == q
}

/// Tracks, while a stream is fed, the earliest starting position of the
/// matches of a DFA that end at the current position.
pub struct DFAEarliestPatternMatcher<S: Symbol, A: Symbol> {
    dfa: DFA<S, A>,
    /// The number of input actions processed so far.
    pub len: usize,
    /// Each live state with the earliest position from which it was reached.
    current_configuration: Vec<(S, usize)>,
    history: Ghost<Seq<A::V>>,
}

/// Feeding one more symbol: the run from `i` on `w` extended by `a`.
pub proof fn lemma_run_extend<S: Symbol, A: Symbol>(d: DFA<S, A>, w: Seq<A::V>, a: A::V, i: int)
    requires
        0 <= i <= w.len(),
    ensures
        d.run(w.push(a).subrange(i, w.len() + 1 as int)) == match d.run(w.subrange(i, w.len() as int)) {
            Some(p) => d.step(p, a),
            None => None,
        },
{
    let u = w.push(a).subrange(i, w.len() + 1 as int);
    assert(u.drop_last() =~= w.subrange(i, w.len() as int));
    assert(u.last() == a);
}

impl<S: Symbol, A: Symbol> DFAEarliestPatternMatcher<S, A> {
    /// The symbols fed so far.
    pub closed spec fn input(&self) -> Seq<A::V> {
        self.history@
    }

    /// The automaton that defines the pattern.
    pub closed spec fn automaton(&self) -> DFA<S, A> {
        self.dfa
    }

    /// The value of the public field `len`.
    pub closed spec fn fed_count(&self) -> nat {
        self.len as nat
    }

    pub closed spec fn inv(&self) -> bool {
        &&& self.len == self.history@.len()
        &&& keys_distinct(self.dfa.trans_view())
        &&& config_ok(self.dfa, self.history@, self.current_configuration.deep_view(), self.len as int)
    }

    /// Creates a matcher that has read nothing.
    pub fn new(dfa: DFA<S, A>) -> (r: Self)
        requires
            keys_distinct(dfa.trans_view()),
        ensures
            r.inv(),
            r.automaton() == dfa,
            r.input() == Seq::<A::V>::empty(),
            r.fed_count() == 0,
    {
        let r = Self { dfa, len: 0, current_configuration: Vec::new(), history: Ghost(Seq::empty()) };
        assert(r.current_configuration.deep_view() =~= Seq::<(S::V, usize)>::empty());
        r
    }

    fn find_in_configuration(c: &Vec<(S, usize)>, q: &S) -> (r: Option<usize>)
        ensures
            match r {
                Some(m) => m < c.len() && c.deep_view()[m as int].0 == q.deep_view(),
                None => forall|m: int| 0 <= m < c.len() ==> c.deep_view()[m].0 != q.deep_view(),
            },
    {
        for m in 0..c.len()
            invariant
                forall|k: int| 0 <= k < m ==> c.deep_view()[k].0 != q.deep_view(),
        {
            assert(c.deep_view()[m as int] == (c[m as int].0.deep_view(), c[m as int].1));
            if c[m].0.same_as(q) {
                return Some(m);
            }
        }
        None
    }

    /// Feeds one input action. A run starts at the current position, every
    /// live run takes its transition on `action` (a run with no transition
    /// dies), and a state reached by several runs keeps the earliest start.
    pub fn feed(&mut self, action: &A)
        requires
            old(self).inv(),
            old(self).input().len() < usize::MAX,
        ensures
            final(self).inv(),
            final(self).automaton() == old(self).automaton(),
            final(self).input() == old(self).input().push(action.deep_view()),
            final(self).fed_count() == final(self).input().len(),
    {
        let ghost w = self.history@;
        let ghost d = self.dfa;
        let n = self.len;
        proof {
            assert(w.subrange(n as int, n as int) =~= Seq::<A::V>::empty());
            assert forall|q: S::V| #[trigger] reaches(d, w, n as int, q) <==> q == d.initial_view() by {}
        }
        match Self::find_in_configuration(&self.current_configuration, &self.dfa.initial) {
            Some(_) => {
                proof {
                    let c = self.current_configuration.deep_view();
                    assert forall|i: int, q: S::V| 0 <= i < n + 1 && #[trigger] reaches(d, w, i, q) implies exists|m: int|
                        0 <= m < c.len() && c[m].0 == q by {
                        if i < n {
                        } else {
                            assert(q == d.initial_view());
                        }
                    }
                }
            },
            None => {
                let ghost c0 = self.current_configuration.deep_view();
                let init = self.dfa.initial.duplicate();
                self.current_configuration.push((init, n));
                proof {
                    let c = self.current_configuration.deep_view();
                    assert(c =~= c0.push((d.initial_view(), n)));
                    assert forall|j: int| 0 <= j < n implies !reaches(d, w, j, d.initial_view()) by {
                        if reaches(d, w, j, d.initial_view()) {
                            let m = choose|m: int| 0 <= m < c0.len() && c0[m].0 == d.initial_view();
                        }
                    }
                    assert forall|i: int, q: S::V| 0 <= i < n + 1 && #[trigger] reaches(d, w, i, q) implies exists|m: int|
                        0 <= m < c.len() && c[m].0 == q by {
                        if i < n {
                            let m = choose|m: int| 0 <= m < c0.len() && c0[m].0 == q;
                            assert(c[m] == c0[m]);
                        } else {
                            assert(c[c0.len() as int].0 == q);
                        }
                    }
                    assert forall|m: int| 0 <= m < c.len() implies {
                        &&& #[trigger] c[m].1 < n + 1
                        &&& reaches(d, w, c[m].1 as int, c[m].0)
                        &&& forall|j: int| 0 <= j < c[m].1 ==> !reaches(d, w, j, c[m].0)
                    } by {
                        if m < c0.len() {
                            assert(c[m] == c0[m]);
                        }
                    }
                }
            },
        }
        let ghost c = self.current_configuration.deep_view();
        assert(config_ok(d, w, c, n + 1));
        let ghost a = action.deep_view();
        let mut next: Vec<(S, usize)> = Vec::new();
        let ghost mut origin: Seq<int> = Seq::empty();
        let ghost mut target: Seq<int> = Seq::empty();
        for k in 0..self.current_configuration.len()
            invariant
                c == self.current_configuration.deep_view(),
                d == self.dfa,
                keys_distinct(d.trans_view()),
                a == action.deep_view(),
                origin.len() == next.deep_view().len(),
                target.len() == k,
                forall|m1: int, m2: int|
                    0 <= m1 < next.deep_view().len() && 0 <= m2 < next.deep_view().len() && m1 != m2
                        ==> next.deep_view()[m1].0 != next.deep_view()[m2].0,
                forall|m: int|
                    #![trigger origin[m]]
                    0 <= m < next.deep_view().len() ==> 0 <= origin[m] < k && d.step(c[origin[m]].0, a) == Some(
                        next.deep_view()[m].0,
                    ) && c[origin[m]].1 == next.deep_view()[m].1,
                forall|m: int, k2: int|
                    0 <= m < next.deep_view().len() && 0 <= k2 < k && d.step(c[k2].0, a) == Some(
                        #[trigger] next.deep_view()[m].0,
                    ) ==> next.deep_view()[m].1 <= #[trigger] c[k2].1,
                forall|k2: int|
                    #![trigger target[k2]]
                    0 <= k2 < k && d.step(c[k2].0, a) is Some ==> 0 <= target[k2] < next.deep_view().len()
                        && Some(next.deep_view()[target[k2]].0) == d.step(c[k2].0, a),
        {
            let ghost nv = next.deep_view();
            assert(c[k as int] == (self.current_configuration[k as int].0.deep_view(), self.current_configuration[k as int].1));
            let start = self.current_configuration[k].1;
            match self.dfa.find_transition(&self.current_configuration[k].0, action) {
                None => {
                    proof {
                        target = target.push(0);
                    }
                },
                Some(t) => {
                    let ghost qv = d.trans_view()[t as int].2;
                    assert(d.trans_view()[t as int].2 == self.dfa.transitions[t as int].2.deep_view());
                    assert(d.step(c[k as int].0, a) == Some(qv));
                    match Self::find_in_configuration(&next, &self.dfa.transitions[t].2) {
                        Some(m) => {
                            proof {
                                target = target.push(m as int);
                            }
                            assert(nv[m as int] == (next[m as int].0.deep_view(), next[m as int].1));
                            if start < next[m].1 {
                                let s = self.dfa.transitions[t].2.duplicate();
                                next.set(m, (s, start));
                                proof {
                                    assert(next.deep_view() =~= nv.update(m as int, (qv, start)));
                                    origin = origin.update(m as int, k as int);
                                }
                            }
                            proof {
                                let nv2 = next.deep_view();
                                assert(nv2[m as int].0 == qv && nv2[m as int].1 <= start);
                                assert forall|m1: int, k2: int|
                                    0 <= m1 < nv2.len() && 0 <= k2 < k + 1 && d.step(c[k2].0, a) == Some(
                                        #[trigger] nv2[m1].0,
                                    ) implies nv2[m1].1 <= #[trigger] c[k2].1 by {
                                    if k2 < k {
                                        assert(nv2[m1].0 == nv[m1].0);
                                    } else {
                                        assert(m1 == m);
                                    }
                                }
                            }
                        },
                        None => {
                            let s = self.dfa.transitions[t].2.duplicate();
                            next.push((s, start));
                            proof {
                                assert(next.deep_view() =~= nv.push((qv, start)));
                                origin = origin.push(k as int);
                                target = target.push(nv.len() as int);
                                let nv2 = next.deep_view();
                                assert forall|m1: int, k2: int|
                                    0 <= m1 < nv2.len() && 0 <= k2 < k + 1 && d.step(c[k2].0, a) == Some(
                                        #[trigger] nv2[m1].0,
                                    ) implies nv2[m1].1 <= #[trigger] c[k2].1 by {
                                    if k2 < k {
                                        if m1 == nv.len() {
                                            let tm = target[k2];
                                            assert(nv[tm].0 == qv);
                                        } else {
                                            assert(nv2[m1] == nv[m1]);
                                        }
                                    } else {
                                        if m1 < nv.len() {
                                            assert(nv2[m1] == nv[m1]);
                                        }
                                    }
                                }
                            }
                        },
                    }
                },
            }
        }
        let ghost nv = next.deep_view();
        self.current_configuration = next;
        self.len = n + 1;
        self.history = Ghost(w.push(a));
        proof {
            lemma_feed_config(d, w, a, c, nv, origin, target);
        }
    }

    /// The earliest start of a match that ends at the current position.
    pub fn current_matching(&self) -> (r: Option<usize>)
        requires
            self.inv(),
        ensures
            match r {
                Some(i) => match_starts_at(self.automaton(), self.input(), i as int) && forall|j: int|
                    0 <= j < i ==> !match_starts_at(self.automaton(), self.input(), j),
                None => forall|j: int| !match_starts_at(self.automaton(), self.input(), j),
            },
    {
        let ghost d = self.dfa;
        let ghost w = self.history@;
        let ghost c = self.current_configuration.deep_view();
        let ghost fs = d.finals_view();
        let mut best: Option<usize> = None;
        for t in 0..self.dfa.finals.len()
            invariant
                d == self.dfa,
                w == self.history@,
                c == self.current_configuration.deep_view(),
                fs == d.finals_view(),
                self.inv(),
                match best {
                    Some(b) => match_starts_at(d, w, b as int),
                    None => true,
                },
                forall|t2: int, m: int|
                    #![trigger fs[t2], c[m]]
                    0 <= t2 < t && 0 <= m < c.len() && c[m].0 == fs[t2] ==> (best matches Some(b) && b
                        <= c[m].1),
        {
            assert(fs[t as int] == self.dfa.finals[t as int].deep_view());
            match Self::find_in_configuration(&self.current_configuration, &self.dfa.finals[t]) {
                None => {},
                Some(m) => {
                    let s = self.current_configuration[m].1;
                    proof {
                        assert(c[m as int].1 == s);
                        assert(fs.contains(c[m as int].0)) by {
                            assert(fs[t as int] == c[m as int].0);
                        }
                    }
                    match best {
                        Some(b) => {
                            if s < b {
                                best = Some(s);
                            }
                        },
                        None => {
                            best = Some(s);
                        },
                    }
                },
            }
            proof {
                assert forall|t2: int, m: int|
                    #![trigger fs[t2], c[m]]
                    0 <= t2 < t + 1 && 0 <= m < c.len() && c[m].0 == fs[t2] implies (best matches Some(b) && b
                        <= c[m].1) by {
                    if t2 == t {
                        let ghost_m = m;
                        assert forall|m1: int, m2: int|
                            0 <= m1 < c.len() && 0 <= m2 < c.len() && m1 != m2 implies c[m1].0 != c[m2].0 by {}
                    }
                }
            }
        }
        proof {
            assert forall|j: int| 0 <= j < w.len() && match_starts_at(d, w, j) implies (best matches Some(b) && b <= j) by {
                let q = d.run(w.subrange(j, w.len() as int)).unwrap();
                assert(reaches(d, w, j, q));
                let m = choose|m: int| 0 <= m < c.len() && c[m].0 == q;
                let t2 = choose|t2: int| 0 <= t2 < fs.len() && fs[t2] == q;
                assert(fs[t2] == c[m].0);
                assert(c[m].1 <= j) by {
                    if j < c[m].1 {
                        assert(!reaches(d, w, j, c[m].0));
                    }
                }
            }
        }
        best
    }

    /// The earliest start among all the runs that are still alive.
    pub fn earliest_starting_position(&self) -> (r: Option<usize>)
        requires
            self.inv(),
        ensures
            match r {
                Some(i) => alive_from(self.automaton(), self.input(), i as int) && forall|j: int|
                    0 <= j < i ==> !alive_from(self.automaton(), self.input(), j),
                None => forall|j: int| !alive_from(self.automaton(), self.input(), j),
            },
    {
        let ghost d = self.dfa;
        let ghost w = self.history@;
        let ghost c = self.current_configuration.deep_view();
        let mut best: Option<usize> = None;
        let mut m: usize = 0;
        while m < self.current_configuration.len()
            invariant
                d == self.dfa,
                w == self.history@,
                c == self.current_configuration.deep_view(),
                self.inv(),
                m <= c.len(),
                match best {
                    Some(b) => alive_from(d, w, b as int),
                    None => true,
                },
                forall|m2: int| 0 <= m2 < m ==> (best matches Some(b) && b <= #[trigger] c[m2].1),
            decreases c.len() - m,
        {
            let s = self.current_configuration[m].1;
            assert(c[m as int].1 == s);
            match best {
                Some(b) => {
                    if s < b {
                        best = Some(s);
                    }
                },
                None => {
                    best = Some(s);
                },
            }
            m = m + 1;
        }
        proof {
            assert forall|j: int| alive_from(d, w, j) implies (best matches Some(b) && b <= j) by {
                let q = d.run(w.subrange(j, w.len() as int)).unwrap();
                assert(reaches(d, w, j, q));
                let m = choose|m: int| 0 <= m < c.len() && c[m].0 == q;
                assert(c[m].1 <= j) by {
                    if j < c[m].1 {
                        assert(!reaches(d, w, j, c[m].0));
                    }
                }
            }
        }
        best
    }
}

/// The configuration built by `feed` describes the runs on the extended input.
pub proof fn lemma_feed_config<S: Symbol, A: Symbol>(
    d: DFA<S, A>,
    w: Seq<A::V>,
    a: A::V,
    c: Seq<(S::V, usize)>,
    nv: Seq<(S::V, usize)>,
    origin: Seq<int>,
    target: Seq<int>,
)
    requires
        config_ok(d, w, c, w.len() + 1 as int),
        forall|m1: int, m2: int|
            0 <= m1 < nv.len() && 0 <= m2 < nv.len() && m1 != m2 ==> nv[m1].0 != nv[m2].0,
        origin.len() == nv.len(),
        target.len() == c.len(),
        forall|m: int|
            #![trigger origin[m]]
            0 <= m < nv.len() ==> 0 <= origin[m] < c.len() && d.step(c[origin[m]].0, a) == Some(nv[m].0)
                && c[origin[m]].1 == nv[m].1,
        forall|m: int, k2: int|
            0 <= m < nv.len() && 0 <= k2 < c.len() && d.step(c[k2].0, a) == Some(#[trigger] nv[m].0)
                ==> nv[m].1 <= #[trigger] c[k2].1,
        forall|k2: int|
            #![trigger target[k2]]
            0 <= k2 < c.len() && d.step(c[k2].0, a) is Some ==> 0 <= target[k2] < nv.len() && Some(
                nv[target[k2]].0,
            ) == d.step(c[k2].0, a),
    ensures
        config_ok(d, w.push(a), nv, w.len() + 1 as int),
{
    let w2 = w.push(a);
    let n = w.len();
    assert forall|i: int, q: S::V| 0 <= i < n + 1 implies #[trigger] reaches(d, w2, i, q) == (exists|p: S::V|
        reaches(d, w, i, p) && d.step(p, a) == Some(q)) by {
        lemma_run_extend(d, w, a, i);
        assert(w2.len() == n + 1);
        if reaches(d, w2, i, q) {
            let p = d.run(w.subrange(i, n as int)).unwrap();
            assert(reaches(d, w, i, p));
        }
    }
    assert forall|m: int| 0 <= m < nv.len() implies {
        &&& #[trigger] nv[m].1 < n + 1
        &&& reaches(d, w2, nv[m].1 as int, nv[m].0)
        &&& forall|j: int| 0 <= j < nv[m].1 ==> !reaches(d, w2, j, nv[m].0)
    } by {
        let k2 = origin[m];
        assert(c[k2].1 < n + 1);
        assert(reaches(d, w, c[k2].1 as int, c[k2].0));
        assert(reaches(d, w2, nv[m].1 as int, nv[m].0));
        assert forall|j: int| 0 <= j < nv[m].1 implies !reaches(d, w2, j, nv[m].0) by {
            if reaches(d, w2, j, nv[m].0) {
                let p = choose|p: S::V| reaches(d, w, j, p) && d.step(p, a) == Some(nv[m].0);
                let k3 = choose|k3: int| 0 <= k3 < c.len() && c[k3].0 == p;
                assert(nv[m].1 <= c[k3].1);
                if j < c[k3].1 {
                    assert(!reaches(d, w, j, c[k3].0));
                }
            }
        }
    }
    assert forall|i: int, q: S::V| 0 <= i < n + 1 && #[trigger] reaches(d, w2, i, q) implies exists|m: int|
        0 <= m < nv.len() && nv[m].0 == q by {
        let p = choose|p: S::V| reaches(d, w, i, p) && d.step(p, a) == Some(q);
        let k3 = choose|k3: int| 0 <= k3 < c.len() && c[k3].0 == p;
        assert(d.step(c[k3].0, a) is Some);
        let m = target[k3];
        assert(nv[m].0 == q);
    }
}

} // verus!
