use vstd::prelude::*;
use crate::label::{Symbol, ValidLabel, duplicate_all};
use crate::dfa::distinct;
use crate::dfa_minimization::nfa_accepts;
use vstd::set_lib::{lemma_int_range, lemma_len_subset, set_int_range};
use std::collections::VecDeque;

verus! {

/// A transition of an automaton: its label and the index of the state it
/// leads to.
#[derive(Debug)]
pub struct Transition<L> {
    pub label: L,
    pub next_state: usize,
}

/// A state of an automaton: its outgoing transitions and whether it accepts.
#[derive(Debug)]
pub struct State<L> {
    /// Outgoing transitions.
    pub transitions: Vec<Transition<L>>,
    /// Whether this state is an accepting state.
    pub is_final: bool,
}

/// A nondeterministic automaton whose states are numbered by their
/// position in `states`.
#[derive(Debug)]
pub struct Automata<L> {
    /// The states, in the order they were added.
    pub states: Vec<State<L>>,
    /// The initial states.
    pub initial_states: Vec<usize>,
    /// The number of variables.
    pub dimensions: usize,
}

/// An automaton over letters paired with variables (Σ × Vars).
pub type NFAH = Automata<(String, usize)>;

/// An automaton over letters.
pub type NFA = Automata<String>;

/// An automaton whose transitions read a letter (`Some`) or nothing (`None`).
pub type EpsilonNFA = Automata<Option<String>>;

impl<L: ValidLabel> Automata<L> {
    pub open spec fn num_states(&self) -> nat {
        self.states@.len()
    }

    pub open spec fn trans(&self, q: int) -> Seq<Transition<L>> {
        self.states@[q].transitions@
    }

    pub open spec fn final_at(&self, q: int) -> bool {
        self.states@[q].is_final
    }

    pub open spec fn is_initial(&self, q: int) -> bool {
        exists|i: int| 0 <= i < self.initial_states@.len() && #[trigger] self.initial_states@[i] as int == q
    }

    /// Every index refers to a state and every label suits the dimensions.
    pub open spec fn wf(&self) -> bool {
        &&& forall|i: int|
            0 <= i < self.initial_states@.len() ==> #[trigger] self.initial_states@[i] < self.num_states()
        &&& forall|q: int, k: int|
            0 <= q < self.num_states() && 0 <= k < self.trans(q).len() ==> {
                &&& #[trigger] self.trans(q)[k].next_state < self.num_states()
                &&& self.trans(q)[k].label.valid_for(self.dimensions as nat)
            }
    }

    /// There is a transition from `r` to `p`.
    pub open spec fn has_edge(&self, r: int, p: int) -> bool {
        0 <= r < self.num_states() && exists|k: int|
            0 <= k < self.trans(r).len() && #[trigger] self.trans(r)[k].next_state == p
    }

    /// `path` follows transitions of the automaton: it starts at a state and
    /// each of its states has a transition to the next one.
    pub open spec fn is_path(&self, path: Seq<int>) -> bool {
        &&& path.len() >= 1
        &&& 0 <= path[0] < self.num_states()
        &&& forall|i: int| 0 <= i < path.len() - 1 ==> #[trigger] self.linked(path, i)
    }

    /// The `i`-th state of `path` has a transition to the next one.
    pub open spec fn linked(&self, path: Seq<int>, i: int) -> bool {
        self.has_edge(path[i], path[i + 1])
    }

    /// `p` is reached from an initial state in exactly `n` transitions.
    pub open spec fn reachable_in(&self, p: int, n: nat) -> bool {
        exists|path: Seq<int>|
            #[trigger] self.is_path(path) && self.is_initial(path[0]) && path.len() == n + 1 && path.last() == p
    }

    /// `p` is reached from an initial state.
    pub open spec fn reachable(&self, p: int) -> bool {
        exists|n: nat| #[trigger] self.reachable_in(p, n)
    }

    /// Some accepting state is reached from an initial state in `n` transitions.
    pub open spec fn accepts_in(&self, n: nat) -> bool {
        exists|p: int| #[trigger] self.reachable_in(p, n) && self.final_at(p)
    }

    /// A final state can be reached from `p`.
    pub open spec fn coreachable(&self, p: int) -> bool {
        exists|path: Seq<int>| #[trigger] self.is_path(path) && path[0] == p && self.final_at(path.last())
    }

    /// Creates an automaton with no state over `dimension` variables.
    pub fn new(dimension: usize) -> (r: Self)
        ensures
            r.wf(),
            r.num_states() == 0,
            r.initial_states@.len() == 0,
            r.dimensions == dimension,
    {
        Self { states: Vec::new(), initial_states: Vec::new(), dimensions: dimension }
    }

    /// Adds a state with no transition and returns its index.
    pub fn add_state(&mut self, is_initial: bool, is_final: bool) -> (r: usize)
        requires
            old(self).wf(),
        ensures
            final(self).wf(),
            r == old(self).num_states(),
            final(self).num_states() == old(self).num_states() + 1,
            final(self).final_at(r as int) == is_final,
            final(self).trans(r as int).len() == 0,
            forall|q: int| 0 <= q < old(self).num_states() ==> final(self).states@[q] == old(self).states@[q],
            final(self).initial_states@ == if is_initial {
                old(self).initial_states@.push(r)
            } else {
                old(self).initial_states@
            },
            final(self).dimensions == old(self).dimensions,
    {
        let r = self.states.len();
        self.states.push(State { transitions: Vec::new(), is_final });
        assert(self.states@.len() == self.states.len());
        if is_initial {
            self.initial_states.push(r);
        }
        proof {
            assert forall|q: int, k: int|
                0 <= q < self.num_states() && 0 <= k < self.trans(q).len() implies {
                    &&& #[trigger] self.trans(q)[k].next_state < self.num_states()
                    &&& self.trans(q)[k].label.valid_for(self.dimensions as nat)
                } by {
                assert(q < old(self).num_states());
                assert(self.states@[q] == old(self).states@[q]);
                assert(self.trans(q)[k] == old(self).trans(q)[k]);
                assert(old(self).trans(q)[k].next_state < old(self).num_states());
            }
        }
        r
    }

    /// Adds a transition labelled `label` from `from` to `to`, and returns a
    /// copy of it.
    pub fn add_transition(&mut self, from: usize, label: L, to: usize) -> (r: Transition<L>)
        requires
            old(self).wf(),
            from < old(self).num_states(),
            to < old(self).num_states(),
            label.valid_for(old(self).dimensions as nat),
        ensures
            final(self).wf(),
            r.label.deep_view() == label.deep_view(),
            r.next_state == to,
            final(self).num_states() == old(self).num_states(),
            final(self).initial_states == old(self).initial_states,
            final(self).dimensions == old(self).dimensions,
            final(self).trans(from as int) == old(self).trans(from as int).push(
                Transition { label, next_state: to },
            ),
            final(self).final_at(from as int) == old(self).final_at(from as int),
            forall|q: int| 0 <= q < old(self).num_states() && q != from ==> final(self).states@[q] == old(self).states@[q],
    {
        let copy = Transition { label: label.duplicate(), next_state: to };
        let mut st = State { transitions: Vec::new(), is_final: false };
        std::mem::swap(&mut st, &mut self.states[from]);
        st.transitions.push(Transition { label, next_state: to });
        std::mem::swap(&mut st, &mut self.states[from]);
        proof {
            assert forall|q: int, k: int|
                0 <= q < self.num_states() && 0 <= k < self.trans(q).len() implies {
                    &&& #[trigger] self.trans(q)[k].next_state < self.num_states()
                    &&& self.trans(q)[k].label.valid_for(self.dimensions as nat)
                } by {
                if q != from {
                    assert(self.states@[q] == old(self).states@[q]);
                    assert(self.trans(q)[k] == old(self).trans(q)[k]);
                    assert(old(self).trans(q)[k].next_state < old(self).num_states());
                } else if k < old(self).trans(q).len() {
                    assert(self.trans(q)[k] == old(self).trans(q)[k]);
                    assert(old(self).trans(q)[k].next_state < old(self).num_states());
                }
            }
        }
        copy
    }
}

impl Automata<(String, usize)> {
    /// Adds a transition labelled (`action`, `var`) from `from` to `to`.
    pub fn add_nfah_transition(&mut self, from: usize, action: String, var: usize, to: usize) -> (r: Transition<
        (String, usize),
    >)
        requires
            old(self).wf(),
            from < old(self).num_states(),
            to < old(self).num_states(),
            var < old(self).dimensions,
        ensures
            final(self).wf(),
            r.label.0@ == action@,
            r.label.1 == var,
            r.next_state == to,
            final(self).num_states() == old(self).num_states(),
            final(self).initial_states == old(self).initial_states,
            final(self).dimensions == old(self).dimensions,
            final(self).trans(from as int) == old(self).trans(from as int).push(
                Transition { label: (action, var), next_state: to },
            ),
            final(self).final_at(from as int) == old(self).final_at(from as int),
            forall|q: int| 0 <= q < old(self).num_states() && q != from ==> final(self).states@[q] == old(self).states@[q],
    {
        self.add_transition(from, (action, var), to)
    }
}


/// The number of `false` entries of `s`.
pub open spec fn count_false(s: Seq<bool>) -> nat
    decreases s.len(),
{
    if s.len() == 0 {
        0
    } else {
        count_false(s.drop_last()) + if s.last() {
            0nat
        } else {
            1nat
        }
    }
}

/// Setting a `false` entry to `true` removes one `false` entry.
pub proof fn lemma_count_false_update(s: Seq<bool>, i: int)
    requires
        0 <= i < s.len(),
        !s[i],
    ensures
        count_false(s.update(i, true)) + 1 == count_false(s),
    decreases s.len(),
{
    let t = s.update(i, true);
    if i == s.len() - 1 {
        assert(t.drop_last() =~= s.drop_last());
    } else {
        assert(t.drop_last() =~= s.drop_last().update(i, true));
        lemma_count_false_update(s.drop_last(), i);
    }
}

/// A vector of `n` entries, all `false`.
pub(crate) fn all_false(n: usize) -> (r: Vec<bool>)
    ensures
        r@.len() == n,
        forall|i: int| 0 <= i < n ==> !r@[i],
        count_false(r@) == n,
{
    let mut r: Vec<bool> = Vec::new();
    for i in 0..n
        invariant
            r@.len() == i,
            forall|k: int| 0 <= k < i ==> !r@[k],
            count_false(r@) == i,
    {
        let ghost prev = r@;
        r.push(false);
        assert(r@.drop_last() =~= prev);
    }
    r
}

impl<L: ValidLabel> Automata<L> {
    /// A state reached in `n + 1` transitions is one with an incoming
    /// transition from a state reached in `n` transitions, and conversely.
    pub proof fn lemma_reachable_in_step(&self, p: int, n: nat)
        ensures
            self.reachable_in(p, n + 1) <==> exists|r: int|
                #[trigger] self.reachable_in(r, n) && self.has_edge(r, p),
    {
        if self.reachable_in(p, n + 1) {
            let path = choose|path: Seq<int>|
                #[trigger] self.is_path(path) && self.is_initial(path[0]) && path.len() == n + 2 && path.last() == p;
            let pre = path.drop_last();
            assert forall|i: int| 0 <= i < pre.len() - 1 implies #[trigger] self.linked(pre, i) by {
                assert(self.linked(path, i));
            }
            assert(self.is_path(pre));
            assert(self.linked(path, n as int));
            assert(self.reachable_in(pre.last(), n));
        }
        if exists|r: int| #[trigger] self.reachable_in(r, n) && self.has_edge(r, p) {
            let r = choose|r: int| #[trigger] self.reachable_in(r, n) && self.has_edge(r, p);
            let path = choose|path: Seq<int>|
                #[trigger] self.is_path(path) && self.is_initial(path[0]) && path.len() == n + 1 && path.last() == r;
            let ext = path.push(p);
            assert forall|i: int| 0 <= i < ext.len() - 1 implies #[trigger] self.linked(ext, i) by {
                if i < n {
                    assert(self.linked(path, i));
                }
            }
            assert(self.is_path(ext));
            assert(self.reachable_in(p, n + 1));
        }
    }

    /// A state reached without any transition is an initial state, and conversely.
    pub proof fn lemma_reachable_in_zero(&self, p: int)
        ensures
            self.reachable_in(p, 0) <==> (self.is_initial(p) && 0 <= p < self.num_states()),
    {
        if self.is_initial(p) && 0 <= p < self.num_states() {
            let path = seq![p];
            assert(self.is_path(path));
        }
    }

    /// The target of a transition of a well-formed automaton is a state.
    pub proof fn lemma_edge_bounds(&self, r: int, p: int)
        requires
            self.wf(),
            self.has_edge(r, p),
        ensures
            0 <= p < self.num_states(),
    {
        let k = choose|k: int| 0 <= k < self.trans(r).len() && #[trigger] self.trans(r)[k].next_state == p;
        assert(self.trans(r)[k].next_state < self.num_states());
    }

    /// Reachable states are states of the automaton.
    pub proof fn lemma_reachable_in_bounds(&self, p: int, n: nat)
        requires
            self.wf(),
            self.reachable_in(p, n),
        ensures
            0 <= p < self.num_states(),
    {
        if n == 0 {
            self.lemma_reachable_in_zero(p);
        } else {
            self.lemma_reachable_in_step(p, (n - 1) as nat);
            let r = choose|r: int| #[trigger] self.reachable_in(r, (n - 1) as nat) && self.has_edge(r, p);
            self.lemma_edge_bounds(r, p);
        }
    }

    /// A set of states that holds the initial states and is closed under
    /// transitions holds every reachable state.
    pub proof fn lemma_closed_contains_reachable(&self, s: Seq<bool>, p: int, n: nat)
        requires
            self.wf(),
            s.len() == self.num_states(),
            forall|q: int| #[trigger] self.is_initial(q) ==> s[q],
            forall|r: int, q: int| 0 <= r < s.len() && s[r] && #[trigger] self.has_edge(r, q) ==> s[q],
            self.reachable_in(p, n),
        ensures
            0 <= p < s.len(),
            s[p],
        decreases n,
    {
        self.lemma_reachable_in_bounds(p, n);
        if n == 0 {
            self.lemma_reachable_in_zero(p);
        } else {
            self.lemma_reachable_in_step(p, (n - 1) as nat);
            let r = choose|r: int| #[trigger] self.reachable_in(r, (n - 1) as nat) && self.has_edge(r, p);
            self.lemma_closed_contains_reachable(s, r, (n - 1) as nat);
        }
    }

    /// A path that visits more states than there are repeats a state, and
    /// the part between the two visits can be cut out: an automaton that
    /// accepts a word accepts one shorter than its number of states.
    pub proof fn lemma_accepts_short(&self, n: nat)
        requires
            self.wf(),
            self.accepts_in(n),
        ensures
            exists|m: nat| m < self.num_states() && #[trigger] self.accepts_in(m),
        decreases n,
    {
        if n >= self.num_states() {
            let p = choose|p: int| #[trigger] self.reachable_in(p, n) && self.final_at(p);
            let path = choose|path: Seq<int>|
                #[trigger] self.is_path(path) && self.is_initial(path[0]) && path.len() == n + 1 && path.last() == p;
            assert forall|i: int| 0 <= i < path.len() implies 0 <= #[trigger] path[i] < self.num_states() by {
                if i > 0 {
                    assert(self.linked(path, i - 1));
                    self.lemma_edge_bounds(path[i - 1], path[i]);
                }
            }
            if path.no_duplicates() {
                path.unique_seq_to_set();
                lemma_int_range(0, self.num_states() as int);
                assert forall|x: int| path.to_set().contains(x) implies set_int_range(0, self.num_states() as int).contains(x) by {
                    let i = choose|i: int| 0 <= i < path.len() && path[i] == x;
                }
                lemma_len_subset(path.to_set(), set_int_range(0, self.num_states() as int));
                assert(false);
            }
            let (i, j) = choose|i: int, j: int| 0 <= i < path.len() && 0 <= j < path.len() && i != j && path[i] == path[j];
            let (lo, hi) = if i < j { (i, j) } else { (j, i) };
            let cut = path.subrange(0, lo) + path.subrange(hi, path.len() as int);
            assert(cut.len() == n + 1 - (hi - lo));
            assert forall|t: int| 0 <= t < cut.len() - 1 implies #[trigger] self.linked(cut, t) by {
                if t < lo - 1 {
                    assert(cut[t] == path[t] && cut[t + 1] == path[t + 1]);
                    assert(self.linked(path, t));
                } else if t == lo - 1 {
                    assert(cut[t] == path[t] && cut[t + 1] == path[hi]);
                    assert(self.linked(path, t));
                } else {
                    let u = t - lo + hi;
                    assert(cut[t] == path[u] && cut[t + 1] == path[u + 1]);
                    assert(self.linked(path, u));
                }
            }
            assert(cut[0] == path[0]) by {
                if lo == 0 {
                    assert(cut[0] == path[hi]);
                }
            }
            assert(cut.last() == p);
            assert(self.is_path(cut));
            let m = (n - (hi - lo)) as nat;
            assert(self.reachable_in(p, m));
            assert(self.accepts_in(m));
            self.lemma_accepts_short(m);
        }
    }

    /// Flags the initial states.
    fn initial_flags(&self) -> (r: Vec<bool>)
        requires
            self.wf(),
        ensures
            r@.len() == self.num_states(),
            forall|p: int| 0 <= p < self.num_states() ==> (r@[p] <==> self.reachable_in(p, 0)),
    {
        let n = self.states.len();
        let mut r = all_false(n);
        for i in 0..self.initial_states.len()
            invariant
                self.wf(),
                n == self.num_states(),
                r@.len() == n,
                forall|p: int| 0 <= p < n ==> (r@[p] <==> exists|j: int|
                    0 <= j < i && #[trigger] self.initial_states@[j] == p),
        {
            let q = self.initial_states[i];
            r.set(q, true);
        }
        proof {
            assert forall|p: int| 0 <= p < n implies (r@[p] <==> self.reachable_in(p, 0)) by {
                self.lemma_reachable_in_zero(p);
                if r@[p] {
                    let j = choose|j: int|
                        0 <= j < self.initial_states@.len() && #[trigger] self.initial_states@[j] == p;
                    assert(self.is_initial(p));
                }
                if self.reachable_in(p, 0) {
                    let j = choose|j: int|
                        0 <= j < self.initial_states@.len() && #[trigger] self.initial_states@[j] as int == p;
                    assert(self.initial_states@[j] == p);
                }
            }
        }
        r
    }

    /// The states with an incoming transition from a flagged state.
    fn post(&self, cur: &Vec<bool>) -> (r: Vec<bool>)
        requires
            self.wf(),
            cur@.len() == self.num_states(),
        ensures
            r@.len() == self.num_states(),
            forall|p: int| 0 <= p < self.num_states() ==> (r@[p] <==> exists|q: int|
                0 <= q < self.num_states() && cur@[q] && #[trigger] self.has_edge(q, p)),
    {
        let n = self.states.len();
        let mut r = all_false(n);
        for q in 0..n
            invariant
                self.wf(),
                n == self.num_states(),
                cur@.len() == n,
                r@.len() == n,
                forall|p: int| 0 <= p < n ==> (r@[p] <==> exists|q2: int|
                    0 <= q2 < q && cur@[q2] && #[trigger] self.has_edge(q2, p)),
        {
            if cur[q] {
                let ts = &self.states[q].transitions;
                assert(ts@ == self.trans(q as int));
                for k in 0..ts.len()
                    invariant
                        self.wf(),
                        n == self.num_states(),
                        0 <= q < n,
                        cur@.len() == n,
                        cur@[q as int],
                        ts@ == self.trans(q as int),
                        r@.len() == n,
                        forall|p: int| 0 <= p < n ==> (r@[p] <==> (exists|q2: int|
                            0 <= q2 < q && cur@[q2] && #[trigger] self.has_edge(q2, p)) || (exists|k2: int|
                            0 <= k2 < k && #[trigger] self.trans(q as int)[k2].next_state == p)),
                {
                    let t = ts[k].next_state;
                    assert(self.trans(q as int)[k as int].next_state < n);
                    r.set(t, true);
                }
                proof {
                    assert forall|p: int| 0 <= p < n implies (r@[p] <==> exists|q2: int|
                        0 <= q2 < q + 1 && cur@[q2] && #[trigger] self.has_edge(q2, p)) by {
                        if exists|k2: int| 0 <= k2 < ts@.len() && #[trigger] self.trans(q as int)[k2].next_state == p {
                            assert(self.has_edge(q as int, p));
                        }
                        if self.has_edge(q as int, p) {
                            let k2 = choose|k2: int|
                                0 <= k2 < self.trans(q as int).len() && #[trigger] self.trans(q as int)[k2].next_state == p;
                        }
                    }
                }
            }
        }
        r
    }

    /// Whether a flagged state is final.
    pub(crate) fn any_final(&self, cur: &Vec<bool>) -> (r: bool)
        requires
            cur@.len() == self.num_states(),
        ensures
            r <==> exists|p: int| 0 <= p < self.num_states() && cur@[p] && #[trigger] self.final_at(p),
    {
        for p in 0..cur.len()
            invariant
                cur@.len() == self.num_states(),
                forall|q: int| 0 <= q < p ==> !(cur@[q] && #[trigger] self.final_at(q)),
        {
            if cur[p] && self.states[p].is_final {
                assert(self.final_at(p as int));
                return true;
            }
        }
        false
    }

    /// Flags the states reachable from an initial state.
    pub(crate) fn reachable_flags(&self) -> (r: Vec<bool>)
        requires
            self.wf(),
        ensures
            r@.len() == self.num_states(),
            forall|p: int| 0 <= p < self.num_states() ==> (r@[p] <==> self.reachable(p)),
    {
        let n = self.states.len();
        let mut visited = all_false(n);
        let mut queue: Vec<usize> = Vec::new();
        for i in 0..self.initial_states.len()
            invariant
                self.wf(),
                n == self.num_states(),
                visited@.len() == n,
                queue@.len() + count_false(visited@) == n,
                forall|j: int| 0 <= j < queue@.len() ==> #[trigger] queue@[j] < n && visited@[queue@[j] as int],
                forall|p: int| 0 <= p < n && visited@[p] ==> exists|j: int|
                    0 <= j < queue@.len() && #[trigger] queue@[j] == p,
                forall|p: int| 0 <= p < n && visited@[p] ==> self.reachable(p),
                forall|j: int| 0 <= j < i ==> visited@[#[trigger] self.initial_states@[j] as int],
        {
            let s = self.initial_states[i];
            if !visited[s] {
                proof {
                    lemma_count_false_update(visited@, s as int);
                    assert(self.is_initial(s as int));
                    self.lemma_reachable_in_zero(s as int);
                    assert(self.reachable_in(s as int, 0));
                }
                let ghost old_queue = queue@;
                visited.set(s, true);
                queue.push(s);
                proof {
                    assert(queue@[queue@.len() - 1] == s);
                    assert forall|p: int| 0 <= p < n && visited@[p] implies exists|j: int|
                        0 <= j < queue@.len() && #[trigger] queue@[j] == p by {
                        if p != s {
                            let j = choose|j: int| 0 <= j < old_queue.len() && #[trigger] old_queue[j] == p;
                            assert(queue@[j] == old_queue[j]);
                        }
                    }
                }
            }
        }
        let mut head: usize = 0;
        while head < queue.len()
            invariant
                self.wf(),
                n == self.num_states(),
                visited@.len() == n,
                head <= queue@.len(),
                queue@.len() + count_false(visited@) == n,
                forall|j: int| 0 <= j < queue@.len() ==> #[trigger] queue@[j] < n && visited@[queue@[j] as int],
                forall|p: int| 0 <= p < n && visited@[p] ==> exists|j: int|
                    0 <= j < queue@.len() && #[trigger] queue@[j] == p,
                forall|p: int| 0 <= p < n && visited@[p] ==> self.reachable(p),
                forall|j: int| 0 <= j < self.initial_states@.len() ==> visited@[#[trigger] self.initial_states@[j] as int],
                forall|j: int, k: int| 0 <= j < head && 0 <= k < self.trans(queue@[j] as int).len()
                    ==> visited@[#[trigger] self.trans(queue@[j] as int)[k].next_state as int],
            decreases n - head,
        {
            let q = queue[head];
            let ts = &self.states[q].transitions;
            assert(ts@ == self.trans(q as int));
            for k in 0..ts.len()
                invariant
                    self.wf(),
                    n == self.num_states(),
                    visited@.len() == n,
                    head < queue@.len(),
                    q == queue@[head as int],
                    q < n,
                    ts@ == self.trans(q as int),
                    queue@.len() + count_false(visited@) == n,
                    forall|j: int| 0 <= j < queue@.len() ==> #[trigger] queue@[j] < n && visited@[queue@[j] as int],
                    forall|p: int| 0 <= p < n && visited@[p] ==> exists|j: int|
                        0 <= j < queue@.len() && #[trigger] queue@[j] == p,
                    forall|p: int| 0 <= p < n && visited@[p] ==> self.reachable(p),
                    forall|j: int| 0 <= j < self.initial_states@.len() ==> visited@[#[trigger] self.initial_states@[j] as int],
                    forall|j: int, k2: int| 0 <= j < head && 0 <= k2 < self.trans(queue@[j] as int).len()
                        ==> visited@[#[trigger] self.trans(queue@[j] as int)[k2].next_state as int],
                    forall|k2: int| 0 <= k2 < k ==> visited@[#[trigger] self.trans(q as int)[k2].next_state as int],
            {
                let t = ts[k].next_state;
                assert(self.trans(q as int)[k as int].next_state < n);
                if !visited[t] {
                    proof {
                        lemma_count_false_update(visited@, t as int);
                        assert(self.reachable(q as int));
                        let m = choose|m: nat| #[trigger] self.reachable_in(q as int, m);
                        assert(self.has_edge(q as int, t as int));
                        self.lemma_reachable_in_step(t as int, m);
                        assert(self.reachable_in(t as int, m + 1));
                    }
                    let ghost old_queue = queue@;
                    visited.set(t, true);
                    queue.push(t);
                    proof {
                        assert(queue@[queue@.len() - 1] == t);
                        assert forall|p: int| 0 <= p < n && visited@[p] implies exists|j: int|
                            0 <= j < queue@.len() && #[trigger] queue@[j] == p by {
                            if p != t {
                                let j = choose|j: int| 0 <= j < old_queue.len() && #[trigger] old_queue[j] == p;
                                assert(queue@[j] == old_queue[j]);
                            }
                        }
                    }
                }
            }
            head = head + 1;
        }
        proof {
            assert forall|r: int, q: int| 0 <= r < visited@.len() && visited@[r] && #[trigger] self.has_edge(r, q)
                implies visited@[q] by {
                let j = choose|j: int| 0 <= j < queue@.len() && #[trigger] queue@[j] == r;
                let k = choose|k: int| 0 <= k < self.trans(r).len() && #[trigger] self.trans(r)[k].next_state == q;
                assert(visited@[self.trans(queue@[j] as int)[k].next_state as int]);
            }
            assert forall|q: int| #[trigger] self.is_initial(q) implies visited@[q] by {
                let j = choose|j: int| 0 <= j < self.initial_states@.len() && #[trigger] self.initial_states@[j] as int == q;
                assert(visited@[self.initial_states@[j] as int]);
            }
            assert forall|p: int| 0 <= p < n implies (visited@[p] <==> self.reachable(p)) by {
                if self.reachable(p) {
                    let m = choose|m: nat| #[trigger] self.reachable_in(p, m);
                    self.lemma_closed_contains_reachable(visited@, p, m);
                }
            }
        }
        visited
    }

    /// Tells whether the automaton accepts no word: no final state is
    /// reachable from an initial state.
    pub fn is_empty(&self) -> (r: bool)
        requires
            self.wf(),
        ensures
            r <==> !exists|n: nat| #[trigger] self.accepts_in(n),
    {
        let flags = self.reachable_flags();
        let found = self.any_final(&flags);
        proof {
            if found {
                let p = choose|p: int| 0 <= p < self.num_states() && flags@[p] && #[trigger] self.final_at(p);
                let m = choose|m: nat| #[trigger] self.reachable_in(p, m);
                assert(self.accepts_in(m));
            }
            if exists|n: nat| #[trigger] self.accepts_in(n) {
                let n = choose|n: nat| #[trigger] self.accepts_in(n);
                let p = choose|p: int| #[trigger] self.reachable_in(p, n) && self.final_at(p);
                self.lemma_reachable_in_bounds(p, n);
                assert(self.reachable(p));
                assert(flags@[p]);
            }
        }
        !found
    }
}


impl<L: ValidLabel> Automata<L> {
    /// Flags the states reached from an initial state in exactly `steps` transitions.
    fn flags_after(&self, steps: usize) -> (r: Vec<bool>)
        requires
            self.wf(),
        ensures
            r@.len() == self.num_states(),
            forall|p: int| 0 <= p < self.num_states() ==> (r@[p] <==> self.reachable_in(p, steps as nat)),
    {
        let mut cur = self.initial_flags();
        for k in 0..steps
            invariant
                self.wf(),
                cur@.len() == self.num_states(),
                forall|p: int| 0 <= p < self.num_states() ==> (cur@[p] <==> self.reachable_in(p, k as nat)),
        {
            let next = self.post(&cur);
            proof {
                self.lemma_post_layer(cur@, next@, k as nat);
            }
            cur = next;
        }
        cur
    }

    /// One step of the layered search: the states with an incoming
    /// transition from layer `k` form layer `k + 1`.
    proof fn lemma_post_layer(&self, cur: Seq<bool>, next: Seq<bool>, k: nat)
        requires
            self.wf(),
            cur.len() == self.num_states(),
            next.len() == self.num_states(),
            forall|p: int| 0 <= p < self.num_states() ==> (cur[p] <==> self.reachable_in(p, k)),
            forall|p: int| 0 <= p < self.num_states() ==> (next[p] <==> exists|q: int|
                0 <= q < self.num_states() && cur[q] && #[trigger] self.has_edge(q, p)),
        ensures
            forall|p: int| 0 <= p < self.num_states() ==> (next[p] <==> self.reachable_in(p, k + 1)),
    {
        assert forall|p: int| 0 <= p < self.num_states() implies (next[p] <==> self.reachable_in(p, k + 1)) by {
            self.lemma_reachable_in_step(p, k);
            if self.reachable_in(p, k + 1) {
                let r = choose|r: int| #[trigger] self.reachable_in(r, k) && self.has_edge(r, p);
                self.lemma_reachable_in_bounds(r, k);
                assert(cur[r]);
            }
            if next[p] {
                let q = choose|q: int| 0 <= q < self.num_states() && cur[q] && #[trigger] self.has_edge(q, p);
                assert(self.reachable_in(q, k));
            }
        }
    }

    /// Returns the states reached from an initial state in exactly `steps`
    /// transitions, in increasing order.
    pub fn states_reachable_in_exactly_n_steps(&self, steps: usize) -> (r: Vec<usize>)
        requires
            self.wf(),
        ensures
            forall|i: int| 0 <= i < r@.len() ==> self.reachable_in(#[trigger] r@[i] as int, steps as nat),
            forall|p: int| self.reachable_in(p, steps as nat) ==> #[trigger] r@.contains(p as usize),
            forall|i: int, j: int| 0 <= i < j < r@.len() ==> r@[i] < r@[j],
    {
        let flags = self.flags_after(steps);
        let mut r: Vec<usize> = Vec::new();
        for p in 0..flags.len()
            invariant
                self.wf(),
                flags@.len() == self.num_states(),
                forall|q: int| 0 <= q < self.num_states() ==> (flags@[q] <==> self.reachable_in(q, steps as nat)),
                forall|i: int| 0 <= i < r@.len() ==> #[trigger] r@[i] < p && flags@[r@[i] as int],
                forall|q: int| 0 <= q < p && flags@[q] ==> #[trigger] r@.contains(q as usize),
                forall|i: int, j: int| 0 <= i < j < r@.len() ==> r@[i] < r@[j],
        {
            if flags[p] {
                let ghost prev = r@;
                r.push(p);
                proof {
                    assert forall|q: int| 0 <= q < p + 1 && flags@[q] implies #[trigger] r@.contains(q as usize) by {
                        if q == p {
                            assert(r@[r@.len() - 1] == p);
                        } else {
                            assert(prev.contains(q as usize));
                            let i = choose|i: int| 0 <= i < prev.len() && prev[i] == q as usize;
                            assert(r@[i] == q as usize);
                        }
                    }
                }
            }
        }
        proof {
            assert forall|p: int| self.reachable_in(p, steps as nat) implies #[trigger] r@.contains(p as usize) by {
                self.lemma_reachable_in_bounds(p, steps as nat);
            }
        }
        r
    }

    /// Returns the length of the shortest word the automaton accepts.
    pub fn shortest_accepted_word_length(&self) -> (r: usize)
        requires
            self.wf(),
            exists|n: nat| n < usize::MAX && #[trigger] self.accepts_in(n),
        ensures
            self.accepts_in(r as nat),
            forall|m: nat| m < r ==> !#[trigger] self.accepts_in(m),
    {
        let ghost bound = choose|n: nat| n < usize::MAX && #[trigger] self.accepts_in(n);
        let mut cur = self.initial_flags();
        let mut k: usize = 0;
        loop
            invariant
                self.wf(),
                cur@.len() == self.num_states(),
                forall|p: int| 0 <= p < self.num_states() ==> (cur@[p] <==> self.reachable_in(p, k as nat)),
                forall|m: nat| m < k ==> !#[trigger] self.accepts_in(m),
                k <= bound,
                bound < usize::MAX,
                self.accepts_in(bound),
            decreases bound - k,
        {
            if self.any_final(&cur) {
                proof {
                    let p = choose|p: int| 0 <= p < self.num_states() && cur@[p] && #[trigger] self.final_at(p);
                    assert(self.reachable_in(p, k as nat));
                }
                return k;
            }
            proof {
                if self.accepts_in(k as nat) {
                    let p = choose|p: int| #[trigger] self.reachable_in(p, k as nat) && self.final_at(p);
                    self.lemma_reachable_in_bounds(p, k as nat);
                    assert(cur@[p]);
                }
                assert(k != bound);
            }
            let next = self.post(&cur);
            proof {
                self.lemma_post_layer(cur@, next@, k as nat);
            }
            cur = next;
            k = k + 1;
        }
    }
}


impl<L: ValidLabel> Automata<L> {
    /// The transitions of `ts` whose target can reach a final state, in order.
    pub open spec fn useful_transitions(&self, ts: Seq<Transition<L>>) -> Seq<Transition<L>>
        decreases ts.len(),
    {
        if ts.len() == 0 {
            ts
        } else {
            let rest = self.useful_transitions(ts.drop_last());
            if self.coreachable(ts.last().next_state as int) {
                rest.push(ts.last())
            } else {
                rest
            }
        }
    }

    /// Every transition kept by `useful_transitions` comes from `ts`.
    pub proof fn lemma_useful_transitions_from(&self, ts: Seq<Transition<L>>)
        ensures
            self.useful_transitions(ts).len() <= ts.len(),
            forall|k: int| 0 <= k < self.useful_transitions(ts).len() ==> exists|j: int|
                0 <= j < ts.len() && ts[j] == #[trigger] self.useful_transitions(ts)[k],
        decreases ts.len(),
    {
        if ts.len() > 0 {
            let pre = ts.drop_last();
            self.lemma_useful_transitions_from(pre);
            let u = self.useful_transitions(ts);
            assert forall|k: int| 0 <= k < u.len() implies exists|j: int|
                0 <= j < ts.len() && ts[j] == #[trigger] u[k] by {
                if k < self.useful_transitions(pre).len() {
                    let j = choose|j: int| 0 <= j < pre.len() && pre[j] == self.useful_transitions(pre)[k];
                    assert(ts[j] == pre[j]);
                } else {
                    assert(ts[ts.len() - 1] == u[k]);
                }
            }
        }
    }

    /// A state with a transition to a state that can reach a final state can
    /// reach one too.
    pub proof fn lemma_coreachable_step(&self, p: int, r: int)
        requires
            self.has_edge(p, r),
            self.coreachable(r),
        ensures
            self.coreachable(p),
    {
        let path = choose|path: Seq<int>| #[trigger] self.is_path(path) && path[0] == r && self.final_at(path.last());
        let ext = seq![p] + path;
        assert forall|i: int| 0 <= i < ext.len() - 1 implies #[trigger] self.linked(ext, i) by {
            if i > 0 {
                assert(ext[i] == path[i - 1]);
                assert(ext[i + 1] == path[i]);
                assert(self.linked(path, i - 1));
            }
        }
        assert(self.is_path(ext));
        assert(ext.last() == path.last());
    }

    /// A final state can reach a final state.
    pub proof fn lemma_coreachable_final(&self, p: int)
        requires
            0 <= p < self.num_states(),
            self.final_at(p),
        ensures
            self.coreachable(p),
    {
        let path = seq![p];
        assert(self.is_path(path));
    }

    /// A path to a final state from a flagged state ends in flagged states
    /// only if the flags are closed backwards.
    proof fn lemma_path_to_final_flagged(&self, reach: Seq<bool>, crf: Seq<bool>, path: Seq<int>)
        requires
            self.wf(),
            reach.len() == self.num_states(),
            crf.len() == self.num_states(),
            forall|r: int, q: int| 0 <= r < reach.len() && reach[r] && #[trigger] self.has_edge(r, q) ==> reach[q],
            forall|q: int| 0 <= q < self.num_states() && reach[q] && #[trigger] self.final_at(q) ==> crf[q],
            forall|q: int, k: int| 0 <= q < self.num_states() && reach[q] && !crf[q] && 0 <= k < self.trans(q).len()
                ==> !crf[#[trigger] self.trans(q)[k].next_state as int],
            self.is_path(path),
            reach[path[0]],
            self.final_at(path.last()),
        ensures
            crf[path[0]],
        decreases path.len(),
    {
        if path.len() > 1 {
            let tail = path.drop_first();
            assert(self.linked(path, 0));
            assert forall|i: int| 0 <= i < tail.len() - 1 implies #[trigger] self.linked(tail, i) by {
                assert(self.linked(path, i + 1));
            }
            self.lemma_edge_bounds(path[0], path[1]);
            assert(self.is_path(tail));
            self.lemma_path_to_final_flagged(reach, crf, tail);
            let k = choose|k: int| 0 <= k < self.trans(path[0]).len() && #[trigger] self.trans(path[0])[k].next_state == path[1];
        }
    }

    /// Among the flagged states, flags those from which a final state can be reached.
    fn coreachable_flags(&self, reach: &Vec<bool>) -> (r: Vec<bool>)
        requires
            self.wf(),
            reach@.len() == self.num_states(),
            forall|p: int| 0 <= p < self.num_states() ==> (reach@[p] <==> self.reachable(p)),
        ensures
            r@.len() == self.num_states(),
            forall|p: int| 0 <= p < self.num_states() && reach@[p] ==> (r@[p] <==> self.coreachable(p)),
    {
        let n = self.states.len();
        let mut crf = all_false(n);
        for p in 0..n
            invariant
                self.wf(),
                n == self.num_states(),
                reach@.len() == n,
                crf@.len() == n,
                forall|q: int| 0 <= q < n && crf@[q] ==> reach@[q] && self.coreachable(q),
                forall|q: int| 0 <= q < p && reach@[q] && #[trigger] self.final_at(q) ==> crf@[q],
        {
            if reach[p] && self.states[p].is_final {
                proof {
                    self.lemma_coreachable_final(p as int);
                }
                crf.set(p, true);
            }
        }
        loop
            invariant
                self.wf(),
                n == self.num_states(),
                reach@.len() == n,
                forall|p: int| 0 <= p < n ==> (reach@[p] <==> self.reachable(p)),
                crf@.len() == n,
                forall|q: int| 0 <= q < n && crf@[q] ==> reach@[q] && self.coreachable(q),
                forall|q: int| 0 <= q < n && reach@[q] && #[trigger] self.final_at(q) ==> crf@[q],
            decreases count_false(crf@),
        {
            let ghost start = crf@;
            let mut changed = false;
            for p in 0..n
                invariant
                    self.wf(),
                    n == self.num_states(),
                    reach@.len() == n,
                    crf@.len() == n,
                    start.len() == n,
                    forall|q: int| 0 <= q < n && crf@[q] ==> reach@[q] && self.coreachable(q),
                    forall|q: int| 0 <= q < n && reach@[q] && #[trigger] self.final_at(q) ==> crf@[q],
                    !changed ==> crf@ == start,
                    changed ==> count_false(crf@) < count_false(start),
                    !changed ==> forall|q: int, k: int| 0 <= q < p && reach@[q] && !crf@[q] && 0 <= k < self.trans(q).len()
                        ==> !crf@[#[trigger] self.trans(q)[k].next_state as int],
            {
                if reach[p] && !crf[p] {
                    let ts = &self.states[p].transitions;
                    assert(ts@ == self.trans(p as int));
                    let mut found = false;
                    for k in 0..ts.len()
                        invariant
                            self.wf(),
                            n == self.num_states(),
                            0 <= p < n,
                            crf@.len() == n,
                            ts@ == self.trans(p as int),
                            found ==> exists|k2: int| 0 <= k2 < ts@.len() && crf@[#[trigger] self.trans(p as int)[k2].next_state as int],
                            !found ==> forall|k2: int| 0 <= k2 < k ==> !crf@[#[trigger] self.trans(p as int)[k2].next_state as int],
                    {
                        assert(self.trans(p as int)[k as int].next_state < n);
                        if crf[ts[k].next_state] {
                            found = true;
                        }
                    }
                    if found {
                        proof {
                            let k2 = choose|k2: int| 0 <= k2 < ts@.len() && crf@[#[trigger] self.trans(p as int)[k2].next_state as int];
                            let t = self.trans(p as int)[k2].next_state as int;
                            assert(self.has_edge(p as int, t));
                            self.lemma_coreachable_step(p as int, t);
                            lemma_count_false_update(crf@, p as int);
                            if !changed {
                                assert(crf@ == start);
                            }
                        }
                        crf.set(p, true);
                        changed = true;
                    }
                }
            }
            if !changed {
                proof {
                    assert forall|r: int, q: int| 0 <= r < reach@.len() && reach@[r] && #[trigger] self.has_edge(r, q)
                        implies reach@[q] by {
                        let m = choose|m: nat| #[trigger] self.reachable_in(r, m);
                        self.lemma_reachable_in_step(q, m);
                        self.lemma_edge_bounds(r, q);
                        assert(self.reachable_in(q, m + 1));
                    }
                    assert forall|p: int| 0 <= p < n && reach@[p] implies (crf@[p] <==> self.coreachable(p)) by {
                        if self.coreachable(p) {
                            let path = choose|path: Seq<int>|
                                #[trigger] self.is_path(path) && path[0] == p && self.final_at(path.last());
                            self.lemma_path_to_final_flagged(reach@, crf@, path);
                        }
                    }
                }
                return crf;
            }
        }
    }

    /// Removes the transitions of the reachable states that lead to states
    /// from which no final state can be reached.
    pub fn remove_unreachable_transitions(&mut self)
        requires
            old(self).wf(),
        ensures
            final(self).wf(),
            final(self).num_states() == old(self).num_states(),
            final(self).initial_states == old(self).initial_states,
            final(self).dimensions == old(self).dimensions,
            forall|q: int| 0 <= q < old(self).num_states() ==> #[trigger] final(self).final_at(q) == old(self).final_at(q),
            forall|q: int| 0 <= q < old(self).num_states() ==> #[trigger] final(self).trans(q) == if old(self).reachable(q) {
                old(self).useful_transitions(old(self).trans(q))
            } else {
                old(self).trans(q)
            },
            final(self).pruned_from(*old(self)),
    {
        let ghost orig = *self;
        let reach = self.reachable_flags();
        let crf = self.coreachable_flags(&reach);
        let n = self.states.len();
        for q in 0..n
            invariant
                orig.wf(),
                n == orig.num_states(),
                self.num_states() == n,
                self.initial_states == orig.initial_states,
                self.dimensions == orig.dimensions,
                reach@.len() == n,
                crf@.len() == n,
                forall|p: int| 0 <= p < n ==> (reach@[p] <==> orig.reachable(p)),
                forall|p: int| 0 <= p < n && reach@[p] ==> (crf@[p] <==> orig.coreachable(p)),
                forall|p: int| 0 <= p < n ==> #[trigger] self.final_at(p) == orig.final_at(p),
                forall|p: int| q <= p < n ==> #[trigger] self.states@[p] == orig.states@[p],
                forall|p: int| 0 <= p < q ==> #[trigger] self.trans(p) == if orig.reachable(p) {
                    orig.useful_transitions(orig.trans(p))
                } else {
                    orig.trans(p)
                },
        {
            let ghost before = self.states@;
            let ghost snap = *self;
            if reach[q] {
                let mut st = State { transitions: Vec::new(), is_final: false };
                std::mem::swap(&mut st, &mut self.states[q]);
                assert(st == orig.states@[q as int]);
                let ghost ts0 = st.transitions@;
                let mut rest = Vec::new();
                std::mem::swap(&mut rest, &mut st.transitions);
                let mut kept: Vec<Transition<L>> = Vec::new();
                while rest.len() > 0
                    invariant
                        orig.wf(),
                        n == orig.num_states(),
                        0 <= q < n,
                        orig.reachable(q as int),
                        ts0 == orig.trans(q as int),
                        crf@.len() == n,
                        reach@.len() == n,
                        forall|p: int| 0 <= p < n ==> (reach@[p] <==> orig.reachable(p)),
                        forall|p: int| 0 <= p < n && reach@[p] ==> (crf@[p] <==> orig.coreachable(p)),
                        rest@.len() <= ts0.len(),
                        rest@ == ts0.subrange(ts0.len() - rest@.len(), ts0.len() as int),
                        kept@ == orig.useful_transitions(ts0.subrange(0, ts0.len() - rest@.len())),
                    decreases rest@.len(),
                {
                    let ghost i = ts0.len() - rest@.len();
                    let t = rest.remove(0);
                    proof {
                        assert(t == ts0[i]);
                        assert(ts0.subrange(0, i + 1).drop_last() =~= ts0.subrange(0, i));
                        assert(rest@ =~= ts0.subrange(i + 1, ts0.len() as int));
                        assert(orig.trans(q as int)[i].next_state < n);
                        assert(orig.has_edge(q as int, t.next_state as int));
                        let m = choose|m: nat| #[trigger] orig.reachable_in(q as int, m);
                        orig.lemma_reachable_in_step(t.next_state as int, m);
                        assert(orig.reachable_in(t.next_state as int, m + 1));
                        assert(reach@[t.next_state as int]);
                    }
                    if crf[t.next_state] {
                        kept.push(t);
                    }
                }
                proof {
                    assert(ts0.subrange(0, ts0.len() as int) =~= ts0);
                    orig.lemma_useful_transitions_from(ts0);
                }
                st.transitions = kept;
                std::mem::swap(&mut st, &mut self.states[q]);
                assert(self.states@[q as int].is_final == orig.states@[q as int].is_final);
                assert(self.trans(q as int) == orig.useful_transitions(orig.trans(q as int)));
                assert forall|p: int| 0 <= p < n && p != q implies #[trigger] self.states@[p] == before[p] by {}
            }
            proof {
                assert forall|p: int| 0 <= p < n implies #[trigger] self.final_at(p) == orig.final_at(p) by {
                    assert(snap.final_at(p) == orig.final_at(p));
                    if p != q {
                        assert(self.states@[p] == before[p]);
                    }
                }
                assert forall|p: int| 0 <= p < q + 1 implies #[trigger] self.trans(p) == if orig.reachable(p) {
                    orig.useful_transitions(orig.trans(p))
                } else {
                    orig.trans(p)
                } by {
                    if p != q {
                        assert(self.states@[p] == before[p]);
                        assert(snap.trans(p) == self.trans(p));
                    }
                }
            }
        }
        proof {
            assert forall|q: int, k: int|
                0 <= q < self.num_states() && 0 <= k < self.trans(q).len() implies {
                    &&& #[trigger] self.trans(q)[k].next_state < self.num_states()
                    &&& self.trans(q)[k].label.valid_for(self.dimensions as nat)
                } by {
                if orig.reachable(q) {
                    orig.lemma_useful_transitions_from(orig.trans(q));
                    let j = choose|j: int| 0 <= j < orig.trans(q).len() && orig.trans(q)[j] == #[trigger] orig.useful_transitions(orig.trans(q))[k];
                    assert(orig.trans(q)[j].next_state < orig.num_states());
                } else {
                    assert(orig.trans(q)[k].next_state < orig.num_states());
                }
            }
        }
    }
}


/// The targets of the transitions of `ts` that are not flagged in `seen`, in order.
pub open spec fn unseen_targets<L>(ts: Seq<Transition<L>>, seen: Seq<bool>) -> Seq<usize>
    decreases ts.len(),
{
    if ts.len() == 0 {
        Seq::empty()
    } else {
        let rest = unseen_targets(ts.drop_last(), seen);
        if seen[ts.last().next_state as int] {
            rest
        } else {
            rest.push(ts.last().next_state)
        }
    }
}

/// Walks the states of an automaton breadth-first from its initial states.
/// A state is marked as seen when it is returned; the targets of its
/// transitions that are not seen yet are queued behind the pending states.
pub struct AutomataStateIter<'a, L> {
    automaton: &'a Automata<L>,
    seen: Vec<bool>,
    queue: VecDeque<usize>,
}

impl<'a, L: ValidLabel> AutomataStateIter<'a, L> {
    /// The automaton being walked.
    pub closed spec fn automaton(&self) -> Automata<L> {
        *self.automaton
    }

    /// The states still to be returned, in order.
    pub closed spec fn pending(&self) -> Seq<usize> {
        self.queue@
    }

    /// Which states have been returned.
    pub closed spec fn seen_flags(&self) -> Seq<bool> {
        self.seen@
    }

    /// The pending states are reachable states of a well-formed automaton.
    pub closed spec fn inv(&self) -> bool {
        &&& self.automaton.wf()
        &&& self.seen@.len() == self.automaton.num_states()
        &&& forall|i: int| 0 <= i < self.queue@.len() ==> #[trigger] self.queue@[i] < self.automaton.num_states()
            && self.automaton.reachable(self.queue@[i] as int)
    }

    /// Starts a walk at the initial states of `automata`.
    pub fn new(automata: &'a Automata<L>) -> (r: Self)
        requires
            automata.wf(),
        ensures
            r.inv(),
            r.automaton() == *automata,
            r.pending() == automata.initial_states@,
            r.seen_flags().len() == automata.num_states(),
            forall|p: int| 0 <= p < automata.num_states() ==> !#[trigger] r.seen_flags()[p],
    {
        let mut queue: VecDeque<usize> = VecDeque::new();
        for i in 0..automata.initial_states.len()
            invariant
                automata.wf(),
                queue@ == automata.initial_states@.subrange(0, i as int),
        {
            let q = automata.initial_states[i];
            proof {
                assert(automata.is_initial(q as int));
                automata.lemma_reachable_in_zero(q as int);
                assert(automata.reachable_in(q as int, 0));
            }
            queue.push_back(q);
            assert(queue@ =~= automata.initial_states@.subrange(0, i + 1));
        }
        proof {
            assert(queue@ =~= automata.initial_states@);
            assert forall|i: int| 0 <= i < queue@.len() implies #[trigger] queue@[i] < automata.num_states()
                && automata.reachable(queue@[i] as int) by {
                let q = queue@[i];
                assert(automata.initial_states@[i] == q);
                assert(automata.is_initial(q as int));
                automata.lemma_reachable_in_zero(q as int);
                assert(automata.reachable_in(q as int, 0));
            }
        }
        Self { automaton: automata, seen: all_false(automata.states.len()), queue }
    }

    /// Returns the next state of the walk, if any is pending.
    pub fn next(&mut self) -> (r: Option<usize>)
        requires
            old(self).inv(),
        ensures
            final(self).inv(),
            final(self).automaton() == old(self).automaton(),
            r is None ==> old(self).pending().len() == 0,
            r is None ==> final(self).pending() == old(self).pending(),
            r is None ==> final(self).seen_flags() == old(self).seen_flags(),
            r matches Some(q) ==> old(self).pending().len() > 0 && q == old(self).pending()[0],
            r matches Some(q) ==> old(self).automaton().reachable(q as int),
            r matches Some(q) ==> final(self).seen_flags() == old(self).seen_flags().update(q as int, true),
            r matches Some(q) ==> final(self).pending() == old(self).pending().drop_first() + unseen_targets(
                old(self).automaton().trans(q as int),
                final(self).seen_flags(),
            ),
    {
        let ghost before = self.queue@;
        let front = self.queue.pop_front();
        match front {
            None => {
                assert(self.queue@ == before);
                None
            },
            Some(q) => {
                let ghost rest = self.queue@;
                self.seen.set(q, true);
                let ghost seen1 = self.seen@;
                let aut = self.automaton;
                let ts = &aut.states[q].transitions;
                assert(ts@ == aut.trans(q as int));
                for k in 0..ts.len()
                    invariant
                        aut.wf(),
                        aut == self.automaton,
                        q < aut.num_states(),
                        aut.reachable(q as int),
                        ts@ == aut.trans(q as int),
                        self.seen@.len() == aut.num_states(),
                        self.seen@ == seen1,
                        self.queue@ == rest + unseen_targets(ts@.subrange(0, k as int), self.seen@),
                        forall|i: int| 0 <= i < self.queue@.len() ==> #[trigger] self.queue@[i] < aut.num_states()
                            && aut.reachable(self.queue@[i] as int),
                {
                    let t = ts[k].next_state;
                    proof {
                        assert(ts@.subrange(0, k + 1).drop_last() =~= ts@.subrange(0, k as int));
                        assert(aut.trans(q as int)[k as int].next_state < aut.num_states());
                    }
                    if !self.seen[t] {
                        proof {
                            assert(aut.has_edge(q as int, t as int));
                            let m = choose|m: nat| #[trigger] aut.reachable_in(q as int, m);
                            aut.lemma_reachable_in_step(t as int, m);
                            assert(aut.reachable_in(t as int, m + 1));
                        }
                        self.queue.push_back(t);
                    }
                    assert(self.queue@ =~= rest + unseen_targets(ts@.subrange(0, k + 1), self.seen@));
                }
                assert(ts@.subrange(0, ts@.len() as int) =~= ts@);
                Some(q)
            },
        }
    }
}

impl<L: ValidLabel> Automata<L> {
    /// Walks the states breadth-first from the initial states.
    pub fn iter_states(&self) -> (r: AutomataStateIter<'_, L>)
        requires
            self.wf(),
        ensures
            r.inv(),
            r.automaton() == *self,
            r.pending() == self.initial_states@,
            forall|p: int| 0 <= p < self.num_states() ==> !#[trigger] r.seen_flags()[p],
    {
        AutomataStateIter::new(self)
    }
}


/// Tells whether two words are equal.
pub fn same_word<L: Symbol>(a: &Vec<L>, b: &Vec<L>) -> (r: bool)
    ensures
        r == (a.deep_view() == b.deep_view()),
{
    if a.len() != b.len() {
        assert(a.deep_view().len() != b.deep_view().len());
        return false;
    }
    for i in 0..a.len()
        invariant
            a@.len() == b@.len(),
            forall|k: int| 0 <= k < i ==> a.deep_view()[k] == b.deep_view()[k],
    {
        if !a[i].same_as(&b[i]) {
            assert(a.deep_view()[i as int] != b.deep_view()[i as int]);
            return false;
        }
    }
    assert(a.deep_view() =~= b.deep_view());
    true
}

impl<L: ValidLabel> Automata<L> {
    /// The `i`-th step of a run: `ks[i]` is a transition of `path[i]` that
    /// reads `w[i]` and leads to `path[i + 1]`.
    pub open spec fn step_reads(&self, path: Seq<int>, ks: Seq<int>, w: Seq<L::V>, i: int) -> bool {
        &&& 0 <= path[i] < self.num_states()
        &&& 0 <= ks[i] < self.trans(path[i]).len()
        &&& self.trans(path[i])[ks[i]].next_state == path[i + 1]
        &&& self.trans(path[i])[ks[i]].label.deep_view() == w[i]
    }

    /// `p` is reached from `q` by transitions reading the word `w`.
    pub open spec fn reads(&self, q: int, w: Seq<L::V>, p: int) -> bool {
        exists|path: Seq<int>, ks: Seq<int>|
            #![trigger path[0], path[w.len() as int], ks.len()]
            path.len() == w.len() + 1 && ks.len() == w.len() && path[0] == q && path[w.len() as int] == p
                && 0 <= p < self.num_states() && forall|i: int| 0 <= i < w.len() ==> #[trigger] self.step_reads(path, ks, w, i)
    }

    /// The word `w` is read from an initial state, ending at `p`.
    pub open spec fn prefix_at(&self, w: Seq<L::V>, p: int) -> bool {
        exists|q: int| self.is_initial(q) && #[trigger] self.reads(q, w, p)
    }

    /// The word `w` labels a run from an initial state.
    pub open spec fn is_prefix(&self, w: Seq<L::V>) -> bool {
        exists|p: int| #[trigger] self.prefix_at(w, p)
    }

    /// Reading nothing from an initial state stays there.
    pub proof fn lemma_prefix_empty(&self, p: int)
        requires
            self.wf(),
        ensures
            self.prefix_at(Seq::<L::V>::empty(), p) <==> (self.is_initial(p) && 0 <= p < self.num_states()),
    {
        let w = Seq::<L::V>::empty();
        if self.is_initial(p) && 0 <= p < self.num_states() {
            let path = seq![p];
            let ks = Seq::<int>::empty();
            assert(path[0] == p && path[w.len() as int] == p && ks.len() == 0);
            assert(self.reads(p, w, p));
        }
        if self.prefix_at(w, p) {
            let q = choose|q: int| self.is_initial(q) && #[trigger] self.reads(q, w, p);
            let (path, ks) = choose|path: Seq<int>, ks: Seq<int>|
                #![trigger path[0], path[w.len() as int], ks.len()]
                path.len() == w.len() + 1 && ks.len() == w.len() && path[0] == q && path[w.len() as int] == p
                    && 0 <= p < self.num_states() && forall|i: int| 0 <= i < w.len() ==> #[trigger] self.step_reads(path, ks, w, i);
        }
    }

    /// A word read up to `p` extends by a letter exactly when `p` has a
    /// transition reading that letter.
    pub proof fn lemma_prefix_step(&self, w: Seq<L::V>, a: L::V, p: int)
        requires
            self.wf(),
        ensures
            self.prefix_at(w.push(a), p) <==> exists|r: int, k: int|
                #[trigger] self.prefix_at(w, r) && 0 <= r < self.num_states() && 0 <= k < self.trans(r).len()
                    && self.trans(r)[k].next_state == p && #[trigger] self.trans(r)[k].label.deep_view() == a,
    {
        let wa = w.push(a);
        if self.prefix_at(wa, p) {
            let q = choose|q: int| self.is_initial(q) && #[trigger] self.reads(q, wa, p);
            let (path, ks) = choose|path: Seq<int>, ks: Seq<int>|
                #![trigger path[0], path[wa.len() as int], ks.len()]
                path.len() == wa.len() + 1 && ks.len() == wa.len() && path[0] == q && path[wa.len() as int] == p
                    && 0 <= p < self.num_states() && forall|i: int| 0 <= i < wa.len() ==> #[trigger] self.step_reads(path, ks, wa, i);
            let n = w.len() as int;
            let r = path[n];
            let k = ks[n];
            assert(self.step_reads(path, ks, wa, n));
            let path2 = path.subrange(0, n + 1);
            let ks2 = ks.subrange(0, n);
            assert forall|i: int| 0 <= i < w.len() implies #[trigger] self.step_reads(path2, ks2, w, i) by {
                assert(self.step_reads(path, ks, wa, i));
                assert(wa[i] == w[i]);
            }
            assert(path2[0] == q && path2[w.len() as int] == r && ks2.len() == w.len());
            assert(self.reads(q, w, r));
            assert(self.prefix_at(w, r));
            assert(self.trans(r)[k].label.deep_view() == a);
        }
        if exists|r: int, k: int|
            #[trigger] self.prefix_at(w, r) && 0 <= r < self.num_states() && 0 <= k < self.trans(r).len()
                && self.trans(r)[k].next_state == p && #[trigger] self.trans(r)[k].label.deep_view() == a {
            let (r, k) = choose|r: int, k: int|
                #[trigger] self.prefix_at(w, r) && 0 <= r < self.num_states() && 0 <= k < self.trans(r).len()
                    && self.trans(r)[k].next_state == p && #[trigger] self.trans(r)[k].label.deep_view() == a;
            let q = choose|q: int| self.is_initial(q) && #[trigger] self.reads(q, w, r);
            let (path, ks) = choose|path: Seq<int>, ks: Seq<int>|
                #![trigger path[0], path[w.len() as int], ks.len()]
                path.len() == w.len() + 1 && ks.len() == w.len() && path[0] == q && path[w.len() as int] == r
                    && 0 <= r < self.num_states() && forall|i: int| 0 <= i < w.len() ==> #[trigger] self.step_reads(path, ks, w, i);
            let path2 = path.push(p);
            let ks2 = ks.push(k);
            assert(self.trans(r)[k].next_state < self.num_states());
            assert forall|i: int| 0 <= i < wa.len() implies #[trigger] self.step_reads(path2, ks2, wa, i) by {
                if i < w.len() {
                    assert(self.step_reads(path, ks, w, i));
                }
            }
            assert(path2[0] == q && path2[wa.len() as int] == p && ks2.len() == wa.len());
            assert(self.reads(q, wa, p));
        }
    }
}

/// Some pair of `v` holds the state `p` and a word equal to `w`.
pub open spec fn has_pair<L: Symbol>(v: Seq<(usize, Vec<L>)>, p: int, w: Seq<L::V>) -> bool {
    exists|i: int| 0 <= i < v.len() && (#[trigger] v[i]).0 == p && v[i].1.deep_view() == w
}

/// Some word of `v` equals `w`.
pub open spec fn has_word<L: Symbol>(v: Seq<Vec<L>>, w: Seq<L::V>) -> bool {
    exists|i: int| 0 <= i < v.len() && (#[trigger] v[i]).deep_view() == w
}

proof fn lemma_has_pair_push<L: Symbol>(v: Seq<(usize, Vec<L>)>, x: (usize, Vec<L>))
    ensures
        forall|p: int, w: Seq<L::V>| #[trigger] has_pair(v, p, w) ==> has_pair(v.push(x), p, w),
        has_pair(v.push(x), x.0 as int, x.1.deep_view()),
{
    assert forall|p: int, w: Seq<L::V>| #[trigger] has_pair(v, p, w) implies has_pair(v.push(x), p, w) by {
        let i = choose|i: int| 0 <= i < v.len() && (#[trigger] v[i]).0 == p && v[i].1.deep_view() == w;
        assert(v.push(x)[i] == v[i]);
    }
    assert(v.push(x)[v.len() as int] == x);
}

proof fn lemma_has_word_push<L: Symbol>(v: Seq<Vec<L>>, x: Vec<L>)
    ensures
        forall|w: Seq<L::V>| #[trigger] has_word(v, w) ==> has_word(v.push(x), w),
        has_word(v.push(x), x.deep_view()),
{
    assert forall|w: Seq<L::V>| #[trigger] has_word(v, w) implies has_word(v.push(x), w) by {
        let i = choose|i: int| 0 <= i < v.len() && (#[trigger] v[i]).deep_view() == w;
        assert(v.push(x)[i] == v[i]);
    }
    assert(v.push(x)[v.len() as int] == x);
}

/// Whether the pair (`state`, `word`) is among `pairs`.
fn contains_pair<L: Symbol>(pairs: &Vec<(usize, Vec<L>)>, state: usize, word: &Vec<L>) -> (r: bool)
    ensures
        r == has_pair(pairs@, state as int, word.deep_view()),
{
    for j in 0..pairs.len()
        invariant
            forall|m: int| 0 <= m < j ==> !((#[trigger] pairs@[m]).0 == state && pairs@[m].1.deep_view() == word.deep_view()),
    {
        if pairs[j].0 == state && same_word(&pairs[j].1, word) {
            return true;
        }
    }
    false
}

/// Whether `word` is among `words`.
fn contains_word<L: Symbol>(words: &Vec<Vec<L>>, word: &Vec<L>) -> (r: bool)
    ensures
        r == has_word(words@, word.deep_view()),
{
    for j in 0..words.len()
        invariant
            forall|m: int| 0 <= m < j ==> (#[trigger] words@[m]).deep_view() != word.deep_view(),
    {
        if same_word(&words[j], word) {
            return true;
        }
    }
    false
}

impl<L: ValidLabel> Automata<L> {
    /// The words of length `n` that label a run from an initial state,
    /// each once, whether or not the run can go on to a final state.
    pub fn accepted_prefixes(&self, n: usize) -> (r: Vec<Vec<L>>)
        requires
            self.wf(),
        ensures
            forall|j: int| 0 <= j < r@.len() ==> (#[trigger] r@[j]).deep_view().len() == n && self.is_prefix(r@[j].deep_view()),
            forall|w: Seq<L::V>| w.len() == n && #[trigger] self.is_prefix(w) ==> has_word(r@, w),
            forall|i: int, j: int| 0 <= i < j < r@.len() ==> r@[i].deep_view() != r@[j].deep_view(),
    {
        let mut layer: Vec<(usize, Vec<L>)> = Vec::new();
        for i in 0..self.initial_states.len()
            invariant
                self.wf(),
                forall|j: int| 0 <= j < layer@.len() ==> (#[trigger] layer@[j]).1.deep_view().len() == 0
                    && self.prefix_at(layer@[j].1.deep_view(), layer@[j].0 as int),
                forall|m: int| 0 <= m < i ==> has_pair(layer@, #[trigger] self.initial_states@[m] as int, Seq::<L::V>::empty()),
        {
            let q = self.initial_states[i];
            let empty: Vec<L> = Vec::new();
            proof {
                assert(self.is_initial(q as int));
                self.lemma_prefix_empty(q as int);
                assert(empty.deep_view() =~= Seq::<L::V>::empty());
            }
            if !contains_pair(&layer, q, &empty) {
                proof {
                    lemma_has_pair_push(layer@, (q, empty));
                }
                layer.push((q, empty));
            }
        }
        proof {
            assert forall|p: int, w: Seq<L::V>| w.len() == 0 && #[trigger] self.prefix_at(w, p) implies has_pair(layer@, p, w) by {
                assert(w =~= Seq::<L::V>::empty());
                self.lemma_prefix_empty(p);
                let m = choose|m: int| 0 <= m < self.initial_states@.len() && #[trigger] self.initial_states@[m] as int == p;
                assert(has_pair(layer@, self.initial_states@[m] as int, Seq::<L::V>::empty()));
            }
        }
        for k in 0..n
            invariant
                self.wf(),
                forall|j: int| 0 <= j < layer@.len() ==> (#[trigger] layer@[j]).1.deep_view().len() == k
                    && self.prefix_at(layer@[j].1.deep_view(), layer@[j].0 as int),
                forall|p: int, w: Seq<L::V>| w.len() == k && #[trigger] self.prefix_at(w, p) ==> has_pair(layer@, p, w),
        {
            let mut next: Vec<(usize, Vec<L>)> = Vec::new();
            for j in 0..layer.len()
                invariant
                    self.wf(),
                    forall|m: int| 0 <= m < layer@.len() ==> (#[trigger] layer@[m]).1.deep_view().len() == k
                        && self.prefix_at(layer@[m].1.deep_view(), layer@[m].0 as int),
                    forall|m: int| 0 <= m < next@.len() ==> (#[trigger] next@[m]).1.deep_view().len() == k + 1
                        && self.prefix_at(next@[m].1.deep_view(), next@[m].0 as int),
                    forall|m: int, t: int| #![trigger layer@[m], self.trans(layer@[m].0 as int)[t]]
                        0 <= m < j && 0 <= t < self.trans(layer@[m].0 as int).len() ==> has_pair(
                            next@,
                            self.trans(layer@[m].0 as int)[t].next_state as int,
                            layer@[m].1.deep_view().push(self.trans(layer@[m].0 as int)[t].label.deep_view()),
                        ),
            {
                let q = layer[j].0;
                proof {
                    assert(self.prefix_at(layer@[j as int].1.deep_view(), q as int));
                    let q0 = choose|q0: int| self.is_initial(q0) && #[trigger] self.reads(q0, layer@[j as int].1.deep_view(), q as int);
                }
                let ts = &self.states[q].transitions;
                assert(ts@ == self.trans(q as int));
                for t in 0..ts.len()
                    invariant
                        self.wf(),
                        0 <= q < self.num_states(),
                        q == layer@[j as int].0,
                        ts@ == self.trans(q as int),
                        0 <= j < layer@.len(),
                        forall|m: int| 0 <= m < layer@.len() ==> (#[trigger] layer@[m]).1.deep_view().len() == k
                            && self.prefix_at(layer@[m].1.deep_view(), layer@[m].0 as int),
                        forall|m: int| 0 <= m < next@.len() ==> (#[trigger] next@[m]).1.deep_view().len() == k + 1
                            && self.prefix_at(next@[m].1.deep_view(), next@[m].0 as int),
                        forall|m: int, t2: int| #![trigger layer@[m], self.trans(layer@[m].0 as int)[t2]]
                            0 <= m < j && 0 <= t2 < self.trans(layer@[m].0 as int).len() ==> has_pair(
                                next@,
                                self.trans(layer@[m].0 as int)[t2].next_state as int,
                                layer@[m].1.deep_view().push(self.trans(layer@[m].0 as int)[t2].label.deep_view()),
                            ),
                        forall|t2: int| 0 <= t2 < t ==> has_pair(
                            next@,
                            self.trans(q as int)[t2].next_state as int,
                            layer@[j as int].1.deep_view().push(#[trigger] self.trans(q as int)[t2].label.deep_view()),
                        ),
                {
                    let mut word = duplicate_all(&layer[j].1);
                    let letter = ts[t].label.duplicate();
                    let ghost wv = word.deep_view();
                    word.push(letter);
                    let target = ts[t].next_state;
                    proof {
                        assert(word.deep_view() =~= wv.push(self.trans(q as int)[t as int].label.deep_view()));
                        self.lemma_prefix_step(wv, self.trans(q as int)[t as int].label.deep_view(), target as int);
                        assert(self.prefix_at(wv, q as int));
                        assert(self.trans(q as int)[t as int].next_state < self.num_states());
                    }
                    let ghost before = next@;
                    if !contains_pair(&next, target, &word) {
                        proof {
                            lemma_has_pair_push(next@, (target, word));
                        }
                        next.push((target, word));
                        proof {
                            assert forall|m: int| 0 <= m < next@.len() implies (#[trigger] next@[m]).1.deep_view().len() == k + 1
                                && self.prefix_at(next@[m].1.deep_view(), next@[m].0 as int) by {
                                if m < before.len() {
                                    assert(next@[m] == before[m]);
                                }
                            }
                        }
                    }
                }
            }
            proof {
                assert forall|p: int, w: Seq<L::V>| w.len() == k + 1 && #[trigger] self.prefix_at(w, p) implies has_pair(next@, p, w) by {
                    let w0 = w.drop_last();
                    let a = w.last();
                    assert(w0.push(a) =~= w);
                    self.lemma_prefix_step(w0, a, p);
                    let (r, t) = choose|r: int, t: int|
                        #[trigger] self.prefix_at(w0, r) && 0 <= r < self.num_states() && 0 <= t < self.trans(r).len()
                            && self.trans(r)[t].next_state == p && #[trigger] self.trans(r)[t].label.deep_view() == a;
                    assert(has_pair(layer@, r, w0));
                    let m = choose|m: int| 0 <= m < layer@.len() && (#[trigger] layer@[m]).0 == r && layer@[m].1.deep_view() == w0;
                    assert(has_pair(next@, self.trans(layer@[m].0 as int)[t].next_state as int,
                        layer@[m].1.deep_view().push(self.trans(layer@[m].0 as int)[t].label.deep_view())));
                }
            }
            layer = next;
        }
        let mut result: Vec<Vec<L>> = Vec::new();
        for j in 0..layer.len()
            invariant
                self.wf(),
                forall|m: int| 0 <= m < layer@.len() ==> (#[trigger] layer@[m]).1.deep_view().len() == n
                    && self.prefix_at(layer@[m].1.deep_view(), layer@[m].0 as int),
                forall|m: int| 0 <= m < result@.len() ==> (#[trigger] result@[m]).deep_view().len() == n && self.is_prefix(result@[m].deep_view()),
                forall|m: int| 0 <= m < j ==> has_word(result@, (#[trigger] layer@[m]).1.deep_view()),
                forall|a: int, b: int| 0 <= a < b < result@.len() ==> result@[a].deep_view() != result@[b].deep_view(),
        {
            let ghost before = result@;
            if !contains_word(&result, &layer[j].1) {
                let w = duplicate_all(&layer[j].1);
                proof {
                    assert(self.prefix_at(layer@[j as int].1.deep_view(), layer@[j as int].0 as int));
                    lemma_has_word_push(result@, w);
                }
                result.push(w);
                proof {
                    assert forall|m: int| 0 <= m < result@.len() implies (#[trigger] result@[m]).deep_view().len() == n && self.is_prefix(result@[m].deep_view()) by {
                        if m < before.len() {
                            assert(result@[m] == before[m]);
                        }
                    }
                    assert forall|a: int, b: int| 0 <= a < b < result@.len() implies result@[a].deep_view() != result@[b].deep_view() by {
                        if b == before.len() {
                            if result@[a].deep_view() == result@[b].deep_view() {
                                assert(before[a] == result@[a]);
                                assert(has_word(before, layer@[j as int].1.deep_view()));
                            }
                        }
                    }
                }
            }
        }
        proof {
            assert forall|w: Seq<L::V>| w.len() == n && #[trigger] self.is_prefix(w) implies has_word(result@, w) by {
                let p = choose|p: int| #[trigger] self.prefix_at(w, p);
                assert(has_pair(layer@, p, w));
                let m = choose|m: int| 0 <= m < layer@.len() && (#[trigger] layer@[m]).0 == p && layer@[m].1.deep_view() == w;
                assert(has_word(result@, layer@[m].1.deep_view()));
            }
        }
        result
    }
}

impl<L: ValidLabel> Automata<L> {
    /// `self` is `old` with the transitions of its reachable states that lead
    /// to states from which no final state can be reached taken out.
    pub open spec fn pruned_from(&self, old: Self) -> bool {
        &&& self.num_states() == old.num_states()
        &&& self.initial_states == old.initial_states
        &&& forall|q: int| 0 <= q < old.num_states() ==> #[trigger] self.final_at(q) == old.final_at(q)
        &&& forall|q: int| 0 <= q < old.num_states() ==> #[trigger] self.trans(q) == if old.reachable(q) {
            old.useful_transitions(old.trans(q))
        } else {
            old.trans(q)
        }
    }

    /// A state reached by reading a word is reached in as many transitions.
    proof fn lemma_prefix_reachable(&self, w: Seq<L::V>, p: int)
        requires
            self.wf(),
            self.prefix_at(w, p),
        ensures
            self.reachable_in(p, w.len()),
        decreases w.len(),
    {
        if w.len() == 0 {
            self.lemma_prefix_empty(p);
            assert(w =~= Seq::<L::V>::empty());
            self.lemma_reachable_in_zero(p);
        } else {
            let w0 = w.drop_last();
            let a = w.last();
            assert(w =~= w0.push(a));
            self.lemma_prefix_step(w0, a, p);
            let (r, k) = choose|r: int, k: int|
                #[trigger] self.prefix_at(w0, r) && 0 <= r < self.num_states() && 0 <= k < self.trans(r).len()
                    && self.trans(r)[k].next_state == p && #[trigger] self.trans(r)[k].label.deep_view() == a;
            self.lemma_prefix_reachable(w0, r);
            assert(self.has_edge(r, p));
            self.lemma_reachable_in_step(p, w0.len());
        }
    }

    /// A transition whose target can reach a final state is kept by
    /// `useful_transitions`.
    proof fn lemma_useful_contains(&self, ts: Seq<Transition<L>>, j: int)
        requires
            0 <= j < ts.len(),
            self.coreachable(ts[j].next_state as int),
        ensures
            exists|k: int| 0 <= k < self.useful_transitions(ts).len() && #[trigger] self.useful_transitions(ts)[k] == ts[j],
        decreases ts.len(),
    {
        let pre = ts.drop_last();
        let rest = self.useful_transitions(pre);
        if j == ts.len() - 1 {
            assert(self.useful_transitions(ts) == rest.push(ts.last()));
            assert(self.useful_transitions(ts)[rest.len() as int] == ts[j]);
        } else {
            assert(pre[j] == ts[j]);
            self.lemma_useful_contains(pre, j);
            let k = choose|k: int| 0 <= k < rest.len() && #[trigger] rest[k] == ts[j];
            assert(self.useful_transitions(ts)[k] == ts[j]);
        }
    }

    /// What the pruned automaton reads is read by the automaton it came from.
    proof fn lemma_pruned_prefix(&self, old: Self, w: Seq<L::V>, p: int)
        requires
            self.wf(),
            old.wf(),
            self.pruned_from(old),
            self.prefix_at(w, p),
        ensures
            old.prefix_at(w, p),
        decreases w.len(),
    {
        if w.len() == 0 {
            self.lemma_prefix_empty(p);
            old.lemma_prefix_empty(p);
            assert(w =~= Seq::<L::V>::empty());
        } else {
            let w0 = w.drop_last();
            let a = w.last();
            assert(w =~= w0.push(a));
            self.lemma_prefix_step(w0, a, p);
            let (r, k) = choose|r: int, k: int|
                #[trigger] self.prefix_at(w0, r) && 0 <= r < self.num_states() && 0 <= k < self.trans(r).len()
                    && self.trans(r)[k].next_state == p && #[trigger] self.trans(r)[k].label.deep_view() == a;
            self.lemma_pruned_prefix(old, w0, r);
            let j = if old.reachable(r) {
                old.lemma_useful_transitions_from(old.trans(r));
                choose|j: int| 0 <= j < old.trans(r).len() && old.trans(r)[j] == #[trigger] old.useful_transitions(old.trans(r))[k]
            } else {
                k
            };
            assert(old.trans(r)[j] == self.trans(r)[k]);
            old.lemma_prefix_step(w0, a, p);
        }
    }

    /// A state from which a final state can be reached, read from an initial
    /// state by the automaton, is read by the pruned automaton too.
    proof fn lemma_prefix_pruned(&self, old: Self, w: Seq<L::V>, p: int)
        requires
            self.wf(),
            old.wf(),
            self.pruned_from(old),
            old.prefix_at(w, p),
            old.coreachable(p),
        ensures
            self.prefix_at(w, p),
        decreases w.len(),
    {
        if w.len() == 0 {
            self.lemma_prefix_empty(p);
            old.lemma_prefix_empty(p);
            assert(w =~= Seq::<L::V>::empty());
        } else {
            let w0 = w.drop_last();
            let a = w.last();
            assert(w =~= w0.push(a));
            old.lemma_prefix_step(w0, a, p);
            let (r, k) = choose|r: int, k: int|
                #[trigger] old.prefix_at(w0, r) && 0 <= r < old.num_states() && 0 <= k < old.trans(r).len()
                    && old.trans(r)[k].next_state == p && #[trigger] old.trans(r)[k].label.deep_view() == a;
            assert(old.has_edge(r, p));
            old.lemma_coreachable_step(r, p);
            self.lemma_prefix_pruned(old, w0, r);
            old.lemma_prefix_reachable(w0, r);
            assert(old.reachable(r));
            old.lemma_useful_contains(old.trans(r), k);
            let k2 = choose|k2: int| 0 <= k2 < old.useful_transitions(old.trans(r)).len()
                && #[trigger] old.useful_transitions(old.trans(r))[k2] == old.trans(r)[k];
            assert(self.trans(r)[k2] == old.trans(r)[k]);
            self.lemma_prefix_step(w0, a, p);
        }
    }

    /// Taking out the transitions that lead to states from which no final
    /// state can be reached keeps the language: the pruned automaton accepts
    /// exactly the words the automaton accepts.
    pub proof fn lemma_pruned_language(&self, old: Self, w: Seq<L::V>)
        requires
            old.wf(),
            self.wf(),
            self.pruned_from(old),
        ensures
            nfa_accepts(*self, w) <==> nfa_accepts(old, w),
    {
        if nfa_accepts(*self, w) {
            let p = choose|p: int| #[trigger] self.prefix_at(w, p) && self.final_at(p);
            self.lemma_pruned_prefix(old, w, p);
            assert(0 <= p < self.num_states()) by {
                let q = choose|q: int| self.is_initial(q) && #[trigger] self.reads(q, w, p);
            }
            assert(old.final_at(p));
        }
        if nfa_accepts(old, w) {
            let p = choose|p: int| #[trigger] old.prefix_at(w, p) && old.final_at(p);
            assert(0 <= p < old.num_states()) by {
                let q = choose|q: int| old.is_initial(q) && #[trigger] old.reads(q, w, p);
            }
            old.lemma_coreachable_final(p);
            self.lemma_prefix_pruned(old, w, p);
        }
    }

    /// The pruned automaton has only transitions of the automaton it came
    /// from.
    proof fn lemma_pruned_edge(&self, old: Self, r: int, p: int)
        requires
            self.pruned_from(old),
            self.has_edge(r, p),
        ensures
            old.has_edge(r, p),
    {
        let k = choose|k: int| 0 <= k < self.trans(r).len() && #[trigger] self.trans(r)[k].next_state == p;
        if old.reachable(r) {
            old.lemma_useful_transitions_from(old.trans(r));
            let j = choose|j: int| 0 <= j < old.trans(r).len() && old.trans(r)[j] == #[trigger] old.useful_transitions(old.trans(r))[k];
            assert(old.trans(r)[j].next_state == p);
        } else {
            assert(old.trans(r)[k].next_state == p);
        }
    }

    /// A state reached in the pruned automaton is reached in the automaton
    /// it came from.
    proof fn lemma_pruned_reachable(&self, old: Self, q: int)
        requires
            self.pruned_from(old),
            self.reachable(q),
        ensures
            old.reachable(q),
    {
        let n = choose|n: nat| #[trigger] self.reachable_in(q, n);
        let path = choose|path: Seq<int>| #[trigger] self.is_path(path) && self.is_initial(path[0]) && path.len() == n + 1 && path.last() == q;
        assert forall|i: int| 0 <= i < path.len() - 1 implies #[trigger] old.linked(path, i) by {
            assert(self.linked(path, i));
            self.lemma_pruned_edge(old, path[i], path[i + 1]);
        }
        assert(old.is_initial(path[0]));
        assert(old.is_path(path));
        assert(old.reachable_in(q, n));
    }

    /// A reachable state from which a path of the automaton leads to a final
    /// state can reach a final state in the pruned automaton.
    proof fn lemma_pruned_coreachable(&self, old: Self, path: Seq<int>)
        requires
            old.wf(),
            self.pruned_from(old),
            old.is_path(path),
            old.reachable(path[0]),
            old.final_at(path.last()),
        ensures
            self.coreachable(path[0]),
        decreases path.len(),
    {
        if path.len() == 1 {
            assert(self.final_at(path[0]));
            self.lemma_coreachable_final(path[0]);
        } else {
            let tail = path.drop_first();
            assert(old.linked(path, 0));
            let (r, p) = (path[0], path[1]);
            assert forall|i: int| 0 <= i < tail.len() - 1 implies #[trigger] old.linked(tail, i) by {
                assert(old.linked(path, i + 1));
            }
            let k = choose|k: int| 0 <= k < old.trans(r).len() && #[trigger] old.trans(r)[k].next_state == p;
            assert(0 <= p < old.num_states());
            assert(old.is_path(tail));
            let n = choose|n: nat| #[trigger] old.reachable_in(r, n);
            old.lemma_reachable_in_step(p, n);
            assert(old.reachable_in(p, n + 1));
            assert(old.coreachable(p)) by {
                assert(tail[0] == p);
                assert(old.final_at(tail.last()));
            }
            self.lemma_pruned_coreachable(old, tail);
            old.lemma_useful_contains(old.trans(r), k);
            let k2 = choose|k2: int| 0 <= k2 < old.useful_transitions(old.trans(r)).len()
                && #[trigger] old.useful_transitions(old.trans(r))[k2] == old.trans(r)[k];
            assert(self.trans(r)[k2].next_state == p);
            assert(self.has_edge(r, p));
            self.lemma_coreachable_step(r, p);
        }
    }

    /// `useful_transitions` keeps a list whose every target can reach a
    /// final state as it is.
    proof fn lemma_useful_all(&self, ts: Seq<Transition<L>>)
        requires
            forall|j: int| 0 <= j < ts.len() ==> self.coreachable(#[trigger] ts[j].next_state as int),
        ensures
            self.useful_transitions(ts) == ts,
        decreases ts.len(),
    {
        if ts.len() > 0 {
            let pre = ts.drop_last();
            assert forall|j: int| 0 <= j < pre.len() implies self.coreachable(#[trigger] pre[j].next_state as int) by {
                assert(pre[j] == ts[j]);
            }
            self.lemma_useful_all(pre);
            assert(self.coreachable(ts[ts.len() - 1].next_state as int));
            assert(pre.push(ts.last()) =~= ts);
        }
    }

    /// Pruning an automaton that was already pruned changes nothing: every
    /// state keeps its transitions.
    pub proof fn lemma_prune_idempotent(&self, old: Self, again: Self)
        requires
            old.wf(),
            self.pruned_from(old),
            again.pruned_from(*self),
        ensures
            forall|q: int| 0 <= q < self.num_states() ==> #[trigger] again.trans(q) == self.trans(q),
            forall|q: int| 0 <= q < self.num_states() ==> #[trigger] again.final_at(q) == self.final_at(q),
            again.initial_states == self.initial_states,
            again.num_states() == self.num_states(),
    {
        assert forall|q: int| 0 <= q < self.num_states() implies #[trigger] again.trans(q) == self.trans(q) by {
            if self.reachable(q) {
                self.lemma_pruned_reachable(old, q);
                let ts = self.trans(q);
                assert(ts == old.useful_transitions(old.trans(q)));
                assert forall|j: int| 0 <= j < ts.len() implies self.coreachable(#[trigger] ts[j].next_state as int) by {
                    old.lemma_useful_transitions_from(old.trans(q));
                    let i = choose|i: int| 0 <= i < old.trans(q).len() && old.trans(q)[i] == #[trigger] old.useful_transitions(old.trans(q))[j];
                    let t = ts[j].next_state as int;
                    lemma_useful_kept(old, old.trans(q), j);
                    let path = choose|path: Seq<int>| #[trigger] old.is_path(path) && path[0] == t && old.final_at(path.last());
                    let n = choose|n: nat| #[trigger] old.reachable_in(q, n);
                    assert(old.has_edge(q, t)) by {
                        assert(old.trans(q)[i].next_state == t);
                    }
                    old.lemma_reachable_in_step(t, n);
                    assert(old.reachable_in(t, n + 1));
                    self.lemma_pruned_coreachable(old, path);
                }
                self.lemma_useful_all(ts);
            }
        }
    }
}

/// Every transition kept by `useful_transitions` has a target from which a
/// final state can be reached.
proof fn lemma_useful_kept<L: ValidLabel>(a: Automata<L>, ts: Seq<Transition<L>>, k: int)
    requires
        0 <= k < a.useful_transitions(ts).len(),
    ensures
        a.coreachable(a.useful_transitions(ts)[k].next_state as int),
    decreases ts.len(),
{
    let pre = ts.drop_last();
    let rest = a.useful_transitions(pre);
    if k < rest.len() {
        lemma_useful_kept(a, pre, k);
        if a.coreachable(ts.last().next_state as int) {
            assert(a.useful_transitions(ts) == rest.push(ts.last()));
        }
    }
}

} // verus!
