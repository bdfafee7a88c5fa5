use vstd::prelude::*;
use crate::automata::{Automata, EpsilonNFA, NFA, all_false, count_false, lemma_count_false_update};
use crate::dfa::distinct;
use crate::dfa_minimization::nfa_accepts;
use crate::label::lemma_push_contains;
use crate::quick_search_skip_values::{contains_string, has_string};
use vstd::set_lib::{lemma_len_subset, lemma_map_size, lemma_set_disjoint_lens};

verus! {

/// `r` has a transition that reads nothing to `q`.
pub open spec fn eps_edge(a: EpsilonNFA, r: int, q: int) -> bool {
    0 <= r < a.num_states() && exists|k: int|
        0 <= k < a.trans(r).len() && (#[trigger] a.trans(r)[k]).label is None && a.trans(r)[k].next_state == q
}

/// `r` has a transition that reads the letter `x` to `q`.
pub open spec fn letter_edge(a: EpsilonNFA, r: int, x: Seq<char>, q: int) -> bool {
    0 <= r < a.num_states() && exists|k: int|
        0 <= k < a.trans(r).len() && (#[trigger] a.trans(r)[k]).label.deep_view() == Some(x) && a.trans(r)[k].next_state == q
}

/// Every flagged state of `s` is flagged in `t`.
pub open spec fn flags_subset(s: Seq<bool>, t: Seq<bool>) -> bool {
    s.len() == t.len() && forall|q: int| 0 <= q < s.len() && #[trigger] s[q] ==> t[q]
}

/// No transition that reads nothing leaves the flagged states of `s`.
pub open spec fn eps_closed(a: EpsilonNFA, s: Seq<bool>) -> bool {
    forall|r: int, q: int| 0 <= r < s.len() && s[r] && #[trigger] eps_edge(a, r, q) ==> 0 <= q < s.len() && s[q]
}

/// `c` flags the states reached from those of `start` by transitions that
/// read nothing: the least set that holds `start` and is closed under them.
pub open spec fn is_eps_closure(a: EpsilonNFA, start: Seq<bool>, c: Seq<bool>) -> bool {
    &&& start.len() == a.num_states()
    &&& flags_subset(start, c)
    &&& eps_closed(a, c)
    &&& forall|d: Seq<bool>| #[trigger] flags_subset(start, d) && eps_closed(a, d) ==> flags_subset(c, d)
}

/// The states reached from a flagged state of `s` by a transition that
/// reads `x`.
pub open spec fn post_letter(a: EpsilonNFA, s: Seq<bool>, x: Seq<char>) -> Seq<bool> {
    Seq::new(s.len(), |q: int| exists|r: int| 0 <= r < s.len() && s[r] && #[trigger] letter_edge(a, r, x, q))
}

/// The initial states, flagged.
pub open spec fn initial_set(a: EpsilonNFA) -> Seq<bool> {
    Seq::new(a.num_states(), |q: int| a.is_initial(q))
}

/// Some state of `s` is flagged.
pub open spec fn nonempty(s: Seq<bool>) -> bool {
    exists|q: int| 0 <= q < s.len() && s[q]
}

/// Some flagged state of `s` accepts.
pub open spec fn holds_final(a: EpsilonNFA, s: Seq<bool>) -> bool {
    exists|q: int| 0 <= q < s.len() && s[q] && a.final_at(q)
}

/// Some transition of `a` reads the letter `x`.
pub open spec fn has_letter(a: EpsilonNFA, x: Seq<char>) -> bool {
    exists|r: int, q: int| #[trigger] letter_edge(a, r, x, q)
}

/// `ss` flags, for each prefix of the word `w` in turn, the states `a` can
/// be in after reading it: first the closure of the initial states, then,
/// letter by letter, the closure of the states reached by a transition
/// reading the letter.
pub open spec fn eps_run(a: EpsilonNFA, w: Seq<Seq<char>>, ss: Seq<Seq<bool>>) -> bool {
    &&& ss.len() == w.len() + 1
    &&& is_eps_closure(a, initial_set(a), ss[0])
    &&& forall|i: int| 0 <= i < w.len() ==> is_eps_closure(a, post_letter(a, #[trigger] ss[i], w[i]), ss[i + 1])
}

/// `a` accepts the word `w`: after reading it, it can be in an accepting
/// state.
pub open spec fn eps_accepts(a: EpsilonNFA, w: Seq<Seq<char>>) -> bool {
    exists|ss: Seq<Seq<bool>>| #[trigger] eps_run(a, w, ss) && holds_final(a, ss.last())
}

/// The closure of no state is empty.
proof fn lemma_closure_of_empty(a: EpsilonNFA, start: Seq<bool>, c: Seq<bool>)
    requires
        is_eps_closure(a, start, c),
        !nonempty(start),
    ensures
        !nonempty(c),
{
    let d = Seq::new(start.len(), |q: int| false);
    assert(flags_subset(start, d)) by {
        assert forall|q: int| 0 <= q < start.len() && #[trigger] start[q] implies d[q] by {
            assert(nonempty(start));
        }
    }
    assert(eps_closed(a, d));
    assert(flags_subset(c, d));
    if nonempty(c) {
        let q = choose|q: int| 0 <= q < c.len() && c[q];
        assert(d[q]);
    }
}

/// A state of the powerset automaton reached by reading `w` stands for the
/// set of states that `a` can be in after reading `w`.
proof fn lemma_powerset_prefix_reach(a: EpsilonNFA, r: NFA, sets: Seq<Seq<bool>>, w: Seq<Seq<char>>, p: int)
    requires
        is_powerset(a, r, sets),
        r.prefix_at(w, p),
    ensures
        0 <= p < sets.len(),
        exists|ss: Seq<Seq<bool>>| #[trigger] eps_run(a, w, ss) && ss.last() == sets[p],
    decreases w.len(),
{
    if w.len() == 0 {
        r.lemma_prefix_empty(p);
        assert(w =~= Seq::<Seq<char>>::empty());
        let i = choose|i: int| 0 <= i < r.initial_states@.len() && #[trigger] r.initial_states@[i] as int == p;
        assert(p == 0);
        let ss = seq![sets[0]];
        assert(eps_run(a, w, ss));
    } else {
        let w0 = w.drop_last();
        let x = w.last();
        assert(w =~= w0.push(x));
        r.lemma_prefix_step(w0, x, p);
        let (r0, k) = choose|r0: int, k: int|
            #[trigger] r.prefix_at(w0, r0) && 0 <= r0 < r.num_states() && 0 <= k < r.trans(r0).len()
                && r.trans(r0)[k].next_state == p && #[trigger] r.trans(r0)[k].label.deep_view() == x;
        lemma_powerset_prefix_reach(a, r, sets, w0, r0);
        let ss0 = choose|ss: Seq<Seq<bool>>| #[trigger] eps_run(a, w0, ss) && ss.last() == sets[r0];
        assert(r.trans(r0)[k].label@ == x);
        assert(is_eps_closure(a, post_letter(a, sets[r0], x), sets[p]));
        let ss = ss0.push(sets[p]);
        assert forall|i: int| 0 <= i < w.len() implies is_eps_closure(a, post_letter(a, #[trigger] ss[i], w[i]), ss[i + 1]) by {
            if i < w0.len() {
                assert(ss[i] == ss0[i] && ss[i + 1] == ss0[i + 1] && w[i] == w0[i]);
            } else {
                assert(ss[i] == ss0.last());
            }
        }
        assert(eps_run(a, w, ss));
    }
}

/// A nonempty set of states that `a` can be in after reading `w` is the
/// set of a state of the powerset automaton reached by reading `w`.
proof fn lemma_powerset_reach_prefix(a: EpsilonNFA, r: NFA, sets: Seq<Seq<bool>>, w: Seq<Seq<char>>, ss: Seq<Seq<bool>>)
    requires
        is_powerset(a, r, sets),
        eps_run(a, w, ss),
        nonempty(ss.last()),
    ensures
        exists|p: int| 0 <= p < sets.len() && #[trigger] r.prefix_at(w, p) && sets[p] == ss.last(),
    decreases w.len(),
{
    if w.len() == 0 {
        lemma_eps_closure_unique(a, initial_set(a), ss[0], sets[0]);
        r.lemma_prefix_empty(0);
        assert(r.initial_states@[0] == 0);
        assert(w =~= Seq::<Seq<char>>::empty());
        assert(r.prefix_at(w, 0));
    } else {
        let n = w.len() - 1;
        let w0 = w.drop_last();
        let x = w.last();
        assert(w =~= w0.push(x));
        let ss0 = ss.drop_last();
        let s0 = ss[n];
        let s = ss.last();
        assert(is_eps_closure(a, post_letter(a, ss[n], w[n]), ss[n + 1]));
        let post = post_letter(a, s0, x);
        if !nonempty(post) {
            lemma_closure_of_empty(a, post, s);
        }
        let q = choose|q: int| 0 <= q < post.len() && post[q];
        let r1 = choose|r1: int| 0 <= r1 < s0.len() && s0[r1] && #[trigger] letter_edge(a, r1, x, q);
        assert(has_letter(a, x));
        assert forall|i: int| 0 <= i < w0.len() implies is_eps_closure(a, post_letter(a, #[trigger] ss0[i], w0[i]), ss0[i + 1]) by {
            assert(ss0[i] == ss[i] && ss0[i + 1] == ss[i + 1] && w0[i] == w[i]);
            assert(is_eps_closure(a, post_letter(a, ss[i], w[i]), ss[i + 1]));
        }
        assert(eps_run(a, w0, ss0));
        assert(ss0.last() == s0);
        assert(nonempty(s0));
        lemma_powerset_reach_prefix(a, r, sets, w0, ss0);
        let p0 = choose|p0: int| 0 <= p0 < sets.len() && #[trigger] r.prefix_at(w0, p0) && sets[p0] == s0;
        assert(nonempty(post_letter(a, sets[p0], x)));
        let k = choose|k: int| 0 <= k < r.trans(p0).len() && (#[trigger] r.trans(p0)[k]).label@ == x;
        let p = r.trans(p0)[k].next_state as int;
        assert(is_eps_closure(a, post_letter(a, sets[p0], x), sets[p]));
        lemma_eps_closure_unique(a, post, s, sets[p]);
        r.lemma_prefix_step(w0, x, p);
        assert(r.trans(p0)[k].label.deep_view() == x);
        assert(r.prefix_at(w, p));
    }
}

/// The powerset automaton of `a` accepts exactly the words `a` accepts.
pub proof fn lemma_powerset_language(a: EpsilonNFA, r: NFA, sets: Seq<Seq<bool>>, w: Seq<Seq<char>>)
    requires
        is_powerset(a, r, sets),
    ensures
        nfa_accepts(r, w) <==> eps_accepts(a, w),
{
    if nfa_accepts(r, w) {
        let p = choose|p: int| #[trigger] r.prefix_at(w, p) && r.final_at(p);
        lemma_powerset_prefix_reach(a, r, sets, w, p);
        let ss = choose|ss: Seq<Seq<bool>>| #[trigger] eps_run(a, w, ss) && ss.last() == sets[p];
        assert(holds_final(a, sets[p]));
        assert(eps_run(a, w, ss) && holds_final(a, ss.last()));
    }
    if eps_accepts(a, w) {
        let ss = choose|ss: Seq<Seq<bool>>| #[trigger] eps_run(a, w, ss) && holds_final(a, ss.last());
        lemma_powerset_reach_prefix(a, r, sets, w, ss);
        let p = choose|p: int| 0 <= p < sets.len() && #[trigger] r.prefix_at(w, p) && sets[p] == ss.last();
        assert(r.final_at(p));
    }
}

/// A set of flags is determined by the closure it is.
pub proof fn lemma_eps_closure_unique(a: EpsilonNFA, start: Seq<bool>, c1: Seq<bool>, c2: Seq<bool>)
    requires
        is_eps_closure(a, start, c1),
        is_eps_closure(a, start, c2),
    ensures
        c1 == c2,
{
    assert(flags_subset(start, c2) && eps_closed(a, c2));
    assert(flags_subset(c1, c2));
    assert(flags_subset(start, c1) && eps_closed(a, c1));
    assert(flags_subset(c2, c1));
    assert(c1 =~= c2);
}

impl Automata<Option<String>> {
    /// The states reached from those flagged in `start` by transitions that
    /// read nothing, `start` included.
    fn epsilon_closure(&self, start: &Vec<bool>) -> (c: Vec<bool>)
        requires
            self.wf(),
            start@.len() == self.num_states(),
        ensures
            c@.len() == self.num_states(),
            is_eps_closure(*self, start@, c@),
    {
        let n = self.states.len();
        let mut c: Vec<bool> = Vec::new();
        let mut queue: Vec<usize> = Vec::new();
        for q in 0..n
            invariant
                n == self.num_states(),
                start@.len() == n,
                c@.len() == q,
                forall|p: int| 0 <= p < q ==> c@[p] == start@[p],
                forall|i: int| 0 <= i < queue@.len() ==> (#[trigger] queue@[i]) < q && c@[queue@[i] as int],
                forall|p: int| 0 <= p < q && #[trigger] c@[p] ==> queue@.contains(p as usize),
        {
            let ghost qprev = queue@;
            let ghost cprev = c@;
            c.push(start[q]);
            if start[q] {
                queue.push(q);
            }
            proof {
                lemma_push_contains(qprev, q);
                assert forall|p: int| 0 <= p < q + 1 && #[trigger] c@[p] implies queue@.contains(p as usize) by {
                    if p < q {
                        assert(cprev[p]);
                        assert(qprev.contains(p as usize));
                    }
                }
            }
        }
        proof {
            assert(c@ =~= start@);
        }
        while queue.len() > 0
            invariant
                self.wf(),
                n == self.num_states(),
                start@.len() == n,
                c@.len() == n,
                flags_subset(start@, c@),
                forall|i: int| 0 <= i < queue@.len() ==> (#[trigger] queue@[i]) < n && c@[queue@[i] as int],
                forall|r: int, q: int| 0 <= r < n && c@[r] && #[trigger] eps_edge(*self, r, q)
                    ==> (0 <= q < n && c@[q]) || queue@.contains(r as usize),
                forall|d: Seq<bool>| #[trigger] flags_subset(start@, d) && eps_closed(*self, d) ==> flags_subset(c@, d),
            decreases count_false(c@), queue@.len(),
        {
            let ghost qold = queue@;
            let r = queue.pop().unwrap();
            let ghost qafter = queue@;
            proof {
                assert(qold == qafter.push(r));
                lemma_push_contains(qafter, r);
            }
            assert(c@[r as int]);
            let ts = &self.states[r].transitions;
            assert(ts@ == self.trans(r as int));
            let ghost c_before = c@;
            for k in 0..ts.len()
                invariant
                    self.wf(),
                    n == self.num_states(),
                    r < n,
                    ts@ == self.trans(r as int),
                    start@.len() == n,
                    c@.len() == n,
                    c@[r as int],
                    flags_subset(start@, c@),
                    flags_subset(c_before, c@),
                    count_false(c@) <= count_false(c_before),
                    count_false(c@) == count_false(c_before) ==> queue@ == qafter,
                    forall|i: int| 0 <= i < queue@.len() ==> (#[trigger] queue@[i]) < n && c@[queue@[i] as int],
                    forall|i: int| 0 <= i < qafter.len() ==> queue@.contains(#[trigger] qafter[i]),
                    forall|r2: int, q: int| 0 <= r2 < n && c@[r2] && #[trigger] eps_edge(*self, r2, q) && r2 != r
                        ==> (0 <= q < n && c@[q]) || queue@.contains(r2 as usize),
                    forall|j: int| 0 <= j < k && (#[trigger] self.trans(r as int)[j]).label is None
                        ==> c@[self.trans(r as int)[j].next_state as int],
                    forall|d: Seq<bool>| #[trigger] flags_subset(start@, d) && eps_closed(*self, d) ==> flags_subset(c@, d),
            {
                let t = ts[k].next_state;
                assert(self.trans(r as int)[k as int].next_state < n);
                if ts[k].label.is_none() && !c[t] {
                    let ghost cprev = c@;
                    let ghost qprev = queue@;
                    proof {
                        lemma_count_false_update(c@, t as int);
                        assert forall|d: Seq<bool>| #[trigger] flags_subset(start@, d) && eps_closed(*self, d)
                            implies flags_subset(cprev.update(t as int, true), d) by {
                            assert(flags_subset(cprev, d));
                            assert(eps_edge(*self, r as int, t as int));
                        }
                    }
                    c.set(t, true);
                    queue.push(t);
                    proof {
                        assert forall|i: int| 0 <= i < qafter.len() implies queue@.contains(#[trigger] qafter[i]) by {
                            assert(qprev.contains(qafter[i]));
                            let m = choose|m: int| 0 <= m < qprev.len() && qprev[m] == qafter[i];
                            assert(queue@[m] == qafter[i]);
                        }
                        assert forall|r2: int, q: int| 0 <= r2 < n && c@[r2] && #[trigger] eps_edge(*self, r2, q) && r2 != r
                            implies (0 <= q < n && c@[q]) || queue@.contains(r2 as usize) by {
                            if r2 == t {
                                assert(queue@[queue@.len() - 1] == t);
                            } else if !(0 <= q < n && cprev[q]) {
                                assert(qprev.contains(r2 as usize));
                                let m = choose|m: int| 0 <= m < qprev.len() && qprev[m] == r2 as usize;
                                assert(queue@[m] == r2);
                            }
                        }
                    }
                }
            }
            proof {
                assert forall|r2: int, q: int| 0 <= r2 < n && c@[r2] && #[trigger] eps_edge(*self, r2, q)
                    implies (0 <= q < n && c@[q]) || queue@.contains(r2 as usize) by {
                    if r2 == r {
                        let j = choose|j: int| 0 <= j < self.trans(r2).len() && (#[trigger] self.trans(r2)[j]).label is None
                            && self.trans(r2)[j].next_state == q;
                        assert(self.trans(r as int)[j].label is None);
                    }
                }
                if count_false(c@) == count_false(c_before) {
                    assert(queue@.len() < qafter.len() + 1);
                }
            }
        }
        proof {
            assert forall|r: int, q: int| 0 <= r < c@.len() && c@[r] && #[trigger] eps_edge(*self, r, q)
                implies 0 <= q < c@.len() && c@[q] by {
                if queue@.contains(r as usize) {
                    let m = choose|m: int| 0 <= m < queue@.len() && queue@[m] == r as usize;
                }
            }
        }
        c
    }
}


/// The number of sets of flags over `n` states.
pub open spec fn num_flag_sets(n: nat) -> nat
    decreases n,
{
    if n == 0 {
        1
    } else {
        2 * num_flag_sets((n - 1) as nat)
    }
}

/// All sequences of `n` flags.
pub open spec fn all_flag_sets(n: nat) -> Set<Seq<bool>>
    decreases n,
{
    if n == 0 {
        set![Seq::<bool>::empty()]
    } else {
        let smaller = all_flag_sets((n - 1) as nat);
        smaller.map(|s: Seq<bool>| s.push(true)) + smaller.map(|s: Seq<bool>| s.push(false))
    }
}

/// There are `num_flag_sets(n)` sequences of `n` flags, and every such
/// sequence is one of them.
proof fn lemma_all_flag_sets(n: nat)
    ensures
        all_flag_sets(n).finite(),
        all_flag_sets(n).len() == num_flag_sets(n),
        forall|s: Seq<bool>| s.len() == n ==> #[trigger] all_flag_sets(n).contains(s),
    decreases n,
{
    if n == 0 {
        assert forall|s: Seq<bool>| s.len() == n implies #[trigger] all_flag_sets(n).contains(s) by {
            assert(s =~= Seq::<bool>::empty());
        }
    } else {
        let m = (n - 1) as nat;
        lemma_all_flag_sets(m);
        let smaller = all_flag_sets(m);
        let ft = |s: Seq<bool>| s.push(true);
        let ff = |s: Seq<bool>| s.push(false);
        let a = smaller.map(ft);
        let b = smaller.map(ff);
        assert forall|x: Seq<bool>, y: Seq<bool>| smaller.contains(x) && smaller.contains(y) && #[trigger] ft(x) == #[trigger] ft(y)
            implies x == y by {
            assert(x =~= ft(x).drop_last());
            assert(y =~= ft(y).drop_last());
        }
        assert forall|x: Seq<bool>, y: Seq<bool>| smaller.contains(x) && smaller.contains(y) && #[trigger] ff(x) == #[trigger] ff(y)
            implies x == y by {
            assert(x =~= ff(x).drop_last());
            assert(y =~= ff(y).drop_last());
        }
        lemma_map_size(smaller, a, ft);
        lemma_map_size(smaller, b, ff);
        assert(a.disjoint(b)) by {
            assert forall|s: Seq<bool>| a.contains(s) implies !b.contains(s) by {
                let x = choose|x: Seq<bool>| smaller.contains(x) && ft(x) == s;
                if b.contains(s) {
                    let y = choose|y: Seq<bool>| smaller.contains(y) && ff(y) == s;
                    assert(s.last() == true);
                    assert(s.last() == false);
                }
            }
        }
        lemma_set_disjoint_lens(a, b);
        assert forall|s: Seq<bool>| s.len() == n implies #[trigger] all_flag_sets(n).contains(s) by {
            let x = s.drop_last();
            assert(smaller.contains(x));
            if s.last() {
                assert(s =~= ft(x));
                assert(a.contains(s));
            } else {
                assert(s =~= ff(x));
                assert(b.contains(s));
            }
        }
    }
}

/// Distinct sequences of `n` flags are at most `num_flag_sets(n)`.
pub proof fn lemma_distinct_flag_sets_bound(ss: Seq<Seq<bool>>, n: nat)
    requires
        distinct(ss),
        forall|i: int| 0 <= i < ss.len() ==> (#[trigger] ss[i]).len() == n,
    ensures
        ss.len() <= num_flag_sets(n),
{
    lemma_all_flag_sets(n);
    assert(ss.no_duplicates());
    ss.unique_seq_to_set();
    assert forall|s: Seq<bool>| ss.to_set().contains(s) implies all_flag_sets(n).contains(s) by {
        let i = choose|i: int| 0 <= i < ss.len() && ss[i] == s;
        assert(ss[i].len() == n);
    }
    lemma_len_subset(ss.to_set(), all_flag_sets(n));
}


/// `r` is the powerset automaton of `a`, its `i`-th state standing for the
/// set `sets[i]` of states of `a`: the only initial state stands for the
/// closure of the initial states; a state accepts when its set holds an
/// accepting state; from each state there is, for each letter of `a` that
/// some state of its set reads, exactly one transition, to the state
/// standing for the closure of the states so reached; and every state is
/// reached from the initial one.
pub open spec fn is_powerset(a: EpsilonNFA, r: NFA, sets: Seq<Seq<bool>>) -> bool {
    &&& r.wf()
    &&& r.dimensions == 0
    &&& sets.len() == r.num_states()
    &&& sets.len() >= 1
    &&& distinct(sets)
    &&& forall|i: int| 0 <= i < sets.len() ==> (#[trigger] sets[i]).len() == a.num_states()
    &&& r.initial_states@ == seq![0usize]
    &&& is_eps_closure(a, initial_set(a), sets[0])
    &&& forall|i: int| 0 <= i < sets.len() ==> (#[trigger] r.final_at(i) <==> holds_final(a, sets[i]))
    &&& forall|i: int, k: int| 0 <= i < sets.len() && 0 <= k < r.trans(i).len() ==> {
        &&& has_letter(a, (#[trigger] r.trans(i)[k]).label@)
        &&& nonempty(sets[r.trans(i)[k].next_state as int])
        &&& is_eps_closure(a, post_letter(a, sets[i], r.trans(i)[k].label@), sets[r.trans(i)[k].next_state as int])
    }
    &&& forall|i: int, x: Seq<char>| 0 <= i < sets.len() && has_letter(a, x) && #[trigger] nonempty(post_letter(a, sets[i], x))
        ==> exists|k: int| 0 <= k < r.trans(i).len() && (#[trigger] r.trans(i)[k]).label@ == x
    &&& forall|i: int, k1: int, k2: int| 0 <= i < sets.len() && 0 <= k1 < k2 < r.trans(i).len()
        ==> (#[trigger] r.trans(i)[k1]).label@ != (#[trigger] r.trans(i)[k2]).label@
    &&& forall|i: int| 0 <= i < sets.len() ==> #[trigger] r.reachable(i)
}

/// Whether two sets of flags are equal.
pub(crate) fn same_flags(a: &Vec<bool>, b: &Vec<bool>) -> (r: bool)
    ensures
        r == (a@ == b@),
{
    if a.len() != b.len() {
        return false;
    }
    for i in 0..a.len()
        invariant
            a@.len() == b@.len(),
            forall|j: int| 0 <= j < i ==> a@[j] == b@[j],
    {
        if a[i] != b[i] {
            return false;
        }
    }
    assert(a@ =~= b@);
    true
}

/// The position of `c` in `sets`.
pub(crate) fn find_flags(sets: &Vec<Vec<bool>>, c: &Vec<bool>) -> (r: Option<usize>)
    ensures
        match r {
            Some(j) => j < sets@.len() && sets@[j as int]@ == c@,
            None => forall|j: int| 0 <= j < sets@.len() ==> (#[trigger] sets@[j])@ != c@,
        },
{
    for j in 0..sets.len()
        invariant
            forall|m: int| 0 <= m < j ==> (#[trigger] sets@[m])@ != c@,
    {
        if same_flags(&sets[j], c) {
            return Some(j);
        }
    }
    None
}

/// Whether some state is flagged.
pub(crate) fn any_flag(s: &Vec<bool>) -> (r: bool)
    ensures
        r == nonempty(s@),
{
    for q in 0..s.len()
        invariant
            forall|p: int| 0 <= p < q ==> !s@[p],
    {
        if s[q] {
            return true;
        }
    }
    false
}

impl Automata<Option<String>> {
    /// The initial states, flagged.
    fn initial_set_flags(&self) -> (r: Vec<bool>)
        requires
            self.wf(),
        ensures
            r@ == initial_set(*self),
    {
        let n = self.states.len();
        let mut r = all_false(n);
        for i in 0..self.initial_states.len()
            invariant
                self.wf(),
                n == self.num_states(),
                r@.len() == n,
                forall|p: int| 0 <= p < n ==> (r@[p] <==> exists|j: int|
                    0 <= j < i && #[trigger] self.initial_states@[j] as int == p),
        {
            let q = self.initial_states[i];
            r.set(q, true);
        }
        proof {
            assert forall|p: int| 0 <= p < n implies r@[p] == initial_set(*self)[p] by {
                if self.is_initial(p) {
                    let j = choose|j: int| 0 <= j < self.initial_states@.len() && #[trigger] self.initial_states@[j] as int == p;
                }
            }
            assert(r@ =~= initial_set(*self));
        }
        r
    }

    /// Whether some flagged state accepts.
    fn any_final_flag(&self, s: &Vec<bool>) -> (r: bool)
        requires
            s@.len() == self.num_states(),
        ensures
            r == holds_final(*self, s@),
    {
        for q in 0..s.len()
            invariant
                s@.len() == self.num_states(),
                forall|p: int| 0 <= p < q ==> !(s@[p] && self.final_at(p)),
        {
            if s[q] && self.states[q].is_final {
                return true;
            }
        }
        false
    }

    /// The states reached from a flagged state by a transition reading `x`.
    fn step_letter(&self, s: &Vec<bool>, x: &String) -> (r: Vec<bool>)
        requires
            self.wf(),
            s@.len() == self.num_states(),
        ensures
            r@ == post_letter(*self, s@, x@),
    {
        let n = self.states.len();
        let mut r = all_false(n);
        for q in 0..n
            invariant
                self.wf(),
                n == self.num_states(),
                s@.len() == n,
                r@.len() == n,
                forall|p: int| 0 <= p < n ==> (r@[p] <==> exists|q2: int|
                    0 <= q2 < q && s@[q2] && #[trigger] letter_edge(*self, q2, x@, p)),
        {
            if s[q] {
                let ts = &self.states[q].transitions;
                assert(ts@ == self.trans(q as int));
                for k in 0..ts.len()
                    invariant
                        self.wf(),
                        n == self.num_states(),
                        q < n,
                        s@.len() == n,
                        s@[q as int],
                        ts@ == self.trans(q as int),
                        r@.len() == n,
                        forall|p: int| 0 <= p < n ==> (r@[p] <==> (exists|q2: int|
                            0 <= q2 < q && s@[q2] && #[trigger] letter_edge(*self, q2, x@, p)) || exists|k2: int|
                            0 <= k2 < k && (#[trigger] self.trans(q as int)[k2]).label.deep_view() == Some(x@)
                                && self.trans(q as int)[k2].next_state == p),
                {
                    let t = ts[k].next_state;
                    assert(self.trans(q as int)[k as int].next_state < n);
                    match &ts[k].label {
                        Some(l) => {
                            if *l == *x {
                                r.set(t, true);
                            }
                        },
                        None => {},
                    }
                }
                proof {
                    assert forall|p: int| 0 <= p < n implies (r@[p] <==> exists|q2: int|
                        0 <= q2 < q + 1 && s@[q2] && #[trigger] letter_edge(*self, q2, x@, p)) by {
                        if exists|k2: int| 0 <= k2 < ts@.len() && (#[trigger] self.trans(q as int)[k2]).label.deep_view() == Some(x@)
                            && self.trans(q as int)[k2].next_state == p {
                            assert(letter_edge(*self, q as int, x@, p));
                        }
                        if letter_edge(*self, q as int, x@, p) {
                            let k2 = choose|k2: int| 0 <= k2 < self.trans(q as int).len()
                                && (#[trigger] self.trans(q as int)[k2]).label.deep_view() == Some(x@)
                                && self.trans(q as int)[k2].next_state == p;
                        }
                    }
                }
            }
        }
        proof {
            assert forall|p: int| 0 <= p < n implies r@[p] == post_letter(*self, s@, x@)[p] by {
                if exists|q2: int| 0 <= q2 < n && s@[q2] && #[trigger] letter_edge(*self, q2, x@, p) {
                    let q2 = choose|q2: int| 0 <= q2 < n && s@[q2] && #[trigger] letter_edge(*self, q2, x@, p);
                    assert(0 <= q2 < s@.len());
                }
            }
            assert(r@ =~= post_letter(*self, s@, x@));
        }
        r
    }

    /// The letters that the transitions read, each once.
    fn gather_alphabet(&self) -> (r: Vec<String>)
        requires
            self.wf(),
        ensures
            forall|i: int, j: int| 0 <= i < j < r@.len() ==> r@[i]@ != r@[j]@,
            forall|x: Seq<char>| has_letter(*self, x) <==> #[trigger] has_string(r@, x),
    {
        let n = self.states.len();
        let mut r: Vec<String> = Vec::new();
        for q in 0..n
            invariant
                self.wf(),
                n == self.num_states(),
                forall|i: int, j: int| 0 <= i < j < r@.len() ==> r@[i]@ != r@[j]@,
                forall|x: Seq<char>| #[trigger] has_string(r@, x) <==> exists|q2: int, p: int|
                    0 <= q2 < q && #[trigger] letter_edge(*self, q2, x, p),
        {
            let ts = &self.states[q].transitions;
            assert(ts@ == self.trans(q as int));
            for k in 0..ts.len()
                invariant
                    self.wf(),
                    n == self.num_states(),
                    q < n,
                    ts@ == self.trans(q as int),
                    forall|i: int, j: int| 0 <= i < j < r@.len() ==> r@[i]@ != r@[j]@,
                    forall|x: Seq<char>| #[trigger] has_string(r@, x) <==> (exists|q2: int, p: int|
                        0 <= q2 < q && #[trigger] letter_edge(*self, q2, x, p)) || exists|k2: int|
                        0 <= k2 < k && (#[trigger] self.trans(q as int)[k2]).label.deep_view() == Some(x),
            {
                match &ts[k].label {
                    Some(l) => {
                        let ghost before = r@;
                        if !contains_string(&r, l) {
                            r.push(l.clone());
                        }
                        proof {
                            assert forall|x: Seq<char>| #[trigger] has_string(r@, x) <==> (exists|q2: int, p: int|
                                0 <= q2 < q && #[trigger] letter_edge(*self, q2, x, p)) || exists|k2: int|
                                0 <= k2 < k + 1 && (#[trigger] self.trans(q as int)[k2]).label.deep_view() == Some(x) by {
                                if has_string(r@, x) && !has_string(before, x) {
                                    assert(x == l@);
                                    assert(self.trans(q as int)[k as int].label.deep_view() == Some(x));
                                }
                                if has_string(before, x) {
                                    let m = choose|m: int| 0 <= m < before.len() && (#[trigger] before[m])@ == x;
                                    assert(r@[m] == before[m]);
                                }
                                if exists|k2: int| 0 <= k2 < k + 1 && (#[trigger] self.trans(q as int)[k2]).label.deep_view() == Some(x) {
                                    let k2 = choose|k2: int| 0 <= k2 < k + 1 && (#[trigger] self.trans(q as int)[k2]).label.deep_view() == Some(x);
                                    if k2 == k {
                                        assert(x == l@);
                                        if !has_string(before, x) {
                                            assert(r@[r@.len() - 1]@ == x);
                                        }
                                    }
                                }
                            }
                            assert forall|i: int, j: int| 0 <= i < j < r@.len() implies r@[i]@ != r@[j]@ by {
                                if j == before.len() {
                                    if r@[i]@ == r@[j]@ {
                                        assert(before[i] == r@[i]);
                                        assert(has_string(before, l@));
                                    }
                                }
                            }
                        }
                    },
                    None => {
                        proof {
                            assert forall|x: Seq<char>| #[trigger] has_string(r@, x) <==> (exists|q2: int, p: int|
                                0 <= q2 < q && #[trigger] letter_edge(*self, q2, x, p)) || exists|k2: int|
                                0 <= k2 < k + 1 && (#[trigger] self.trans(q as int)[k2]).label.deep_view() == Some(x) by {
                                if exists|k2: int| 0 <= k2 < k + 1 && (#[trigger] self.trans(q as int)[k2]).label.deep_view() == Some(x) {
                                    let k2 = choose|k2: int| 0 <= k2 < k + 1 && (#[trigger] self.trans(q as int)[k2]).label.deep_view() == Some(x);
                                    assert(k2 != k);
                                }
                            }
                        }
                    },
                }
            }
            proof {
                assert forall|x: Seq<char>| #[trigger] has_string(r@, x) <==> exists|q2: int, p: int|
                    0 <= q2 < q + 1 && #[trigger] letter_edge(*self, q2, x, p) by {
                    if exists|k2: int| 0 <= k2 < ts@.len() && (#[trigger] self.trans(q as int)[k2]).label.deep_view() == Some(x) {
                        let k2 = choose|k2: int| 0 <= k2 < ts@.len() && (#[trigger] self.trans(q as int)[k2]).label.deep_view() == Some(x);
                        assert(letter_edge(*self, q as int, x, self.trans(q as int)[k2].next_state as int));
                    }
                    if exists|q2: int, p: int| 0 <= q2 < q + 1 && #[trigger] letter_edge(*self, q2, x, p) {
                        let (q2, p) = choose|q2: int, p: int| 0 <= q2 < q + 1 && #[trigger] letter_edge(*self, q2, x, p);
                        if q2 == q {
                            let k2 = choose|k2: int| 0 <= k2 < self.trans(q2).len()
                                && (#[trigger] self.trans(q2)[k2]).label.deep_view() == Some(x) && self.trans(q2)[k2].next_state == p;
                        }
                    }
                }
            }
        }
        proof {
            assert forall|x: Seq<char>| has_letter(*self, x) <==> #[trigger] has_string(r@, x) by {
                if has_letter(*self, x) {
                    let (q2, p) = choose|q2: int, p: int| #[trigger] letter_edge(*self, q2, x, p);
                    assert(0 <= q2 < n);
                }
            }
        }
        r
    }
}


/// The sets of flags held by `sets`.
pub open spec fn flag_views(sets: Seq<Vec<bool>>) -> Seq<Seq<bool>> {
    sets.map_values(|v: Vec<bool>| v@)
}

/// The closure of a set is empty exactly when the set is.
proof fn lemma_closure_nonempty(a: EpsilonNFA, start: Seq<bool>, c: Seq<bool>)
    requires
        is_eps_closure(a, start, c),
    ensures
        nonempty(c) <==> nonempty(start),
{
    if nonempty(start) {
        let q = choose|q: int| 0 <= q < start.len() && start[q];
        assert(c[q]);
    } else {
        let d = Seq::new(start.len(), |q: int| false);
        assert(flags_subset(start, d));
        assert(eps_closed(a, d));
        assert(flags_subset(c, d));
    }
}

/// State `j` has an incoming transition from an earlier state.
pub open spec fn has_earlier_parent(r: NFA, j: int) -> bool {
    exists|m: int| 0 <= m < j && #[trigger] r.has_edge(m, j)
}

/// Every state of `r` has an incoming transition from an earlier one, but
/// the first, which is initial: then every state is reached.
proof fn lemma_reached_through_earlier(r: NFA, i: int)
    requires
        r.wf(),
        r.initial_states@ == seq![0usize],
        0 <= i < r.num_states(),
        forall|j: int| 0 < j < r.num_states() ==> #[trigger] has_earlier_parent(r, j),
    ensures
        r.reachable(i),
    decreases i,
{
    if i == 0 {
        assert(r.initial_states@[0] == 0);
        r.lemma_reachable_in_zero(0);
        assert(r.reachable_in(0, 0));
    } else {
        assert(has_earlier_parent(r, i));
        let m = choose|m: int| 0 <= m < i && #[trigger] r.has_edge(m, i);
        lemma_reached_through_earlier(r, m);
        let steps = choose|steps: nat| #[trigger] r.reachable_in(m, steps);
        r.lemma_reachable_in_step(i, steps);
        assert(r.reachable_in(i, steps + 1));
    }
}

impl Automata<Option<String>> {
    /// The closure of the states reached from `s` by a transition reading `x`.
    fn successor_set(&self, s: &Vec<bool>, x: &String) -> (c: Vec<bool>)
        requires
            self.wf(),
            s@.len() == self.num_states(),
        ensures
            c@.len() == self.num_states(),
            is_eps_closure(*self, post_letter(*self, s@, x@), c@),
            nonempty(c@) <==> nonempty(post_letter(*self, s@, x@)),
    {
        let d = self.step_letter(s, x);
        let c = self.epsilon_closure(&d);
        proof {
            lemma_closure_nonempty(*self, d@, c@);
        }
        c
    }

}


/// A powerset automaton under construction: its states and the set of
/// states of the automaton that each stands for.
struct PowersetBuilder {
    result: NFA,
    sets: Vec<Vec<bool>>,
}

impl PowersetBuilder {
    spec fn views(&self) -> Seq<Seq<bool>> {
        flag_views(self.sets@)
    }

    /// What holds of every state, whether its transitions are built or not.
    spec fn inv(&self, a: EpsilonNFA) -> bool {
        &&& self.result.wf()
        &&& self.result.dimensions == 0
        &&& self.sets@.len() == self.result.num_states()
        &&& self.sets@.len() >= 1
        &&& distinct(self.views())
        &&& self.views().len() <= num_flag_sets(a.num_states())
        &&& forall|i: int| 0 <= i < self.sets@.len() ==> (#[trigger] self.sets@[i])@.len() == a.num_states()
        &&& self.result.initial_states@ == seq![0usize]
        &&& is_eps_closure(a, initial_set(a), self.sets@[0]@)
        &&& forall|i: int| 0 <= i < self.sets@.len() ==> (#[trigger] self.result.final_at(i) <==> holds_final(a, self.sets@[i]@))
        &&& forall|j: int| 0 < j < self.result.num_states() ==> #[trigger] has_earlier_parent(self.result, j)
    }

    /// Every transition of state `i` goes where the construction says.
    spec fn trans_ok(&self, a: EpsilonNFA, i: int) -> bool {
        forall|k: int| 0 <= k < self.result.trans(i).len() ==> {
            &&& has_letter(a, (#[trigger] self.result.trans(i)[k]).label@)
            &&& self.result.trans(i)[k].next_state < self.sets@.len()
            &&& nonempty(self.sets@[self.result.trans(i)[k].next_state as int]@)
            &&& is_eps_closure(a, post_letter(a, self.sets@[i]@, self.result.trans(i)[k].label@), self.sets@[self.result.trans(i)[k].next_state as int]@)
        }
    }

    /// No two transitions of state `i` read the same letter.
    spec fn labels_distinct(&self, i: int) -> bool {
        forall|k1: int, k2: int| 0 <= k1 < k2 < self.result.trans(i).len()
            ==> (#[trigger] self.result.trans(i)[k1]).label@ != (#[trigger] self.result.trans(i)[k2]).label@
    }

    /// State `i` has a transition for each letter leading somewhere.
    spec fn complete(&self, a: EpsilonNFA, i: int) -> bool {
        forall|x: Seq<char>| has_letter(a, x) && #[trigger] nonempty(post_letter(a, self.sets@[i]@, x))
            ==> exists|k: int| 0 <= k < self.result.trans(i).len() && (#[trigger] self.result.trans(i)[k]).label@ == x
    }

    /// The transitions of state `i` read letters among the first `ai` of `alphabet`.
    spec fn labels_before(&self, alphabet: Seq<String>, i: int, ai: int) -> bool {
        forall|k: int| 0 <= k < self.result.trans(i).len() ==> exists|m: int| 0 <= m < ai
            && (#[trigger] self.result.trans(i)[k]).label@ == alphabet[m]@
    }

    /// State `i` has a transition for each of the first `ai` letters of
    /// `alphabet` leading somewhere.
    spec fn complete_before(&self, a: EpsilonNFA, alphabet: Seq<String>, i: int, ai: int) -> bool {
        forall|m: int| 0 <= m < ai && #[trigger] nonempty(post_letter(a, self.sets@[i]@, alphabet[m]@))
            ==> exists|k: int| 0 <= k < self.result.trans(i).len() && (#[trigger] self.result.trans(i)[k]).label@ == alphabet[m]@
    }

    /// What is said of a state's transitions stays true while its
    /// transitions and the sets stay as they are, however many sets follow.
    proof fn lemma_state_kept(old: &Self, new: &Self, a: EpsilonNFA, i: int)
        requires
            0 <= i < old.sets@.len() <= new.sets@.len(),
            forall|m: int| 0 <= m < old.sets@.len() ==> #[trigger] new.sets@[m] == old.sets@[m],
            new.result.trans(i) == old.result.trans(i),
            old.trans_ok(a, i),
        ensures
            new.trans_ok(a, i),
            old.labels_distinct(i) ==> new.labels_distinct(i),
            old.complete(a, i) ==> new.complete(a, i),
    {
        assert(new.sets@[i] == old.sets@[i]);
        assert forall|k: int| 0 <= k < new.result.trans(i).len() implies {
            &&& has_letter(a, (#[trigger] new.result.trans(i)[k]).label@)
            &&& new.result.trans(i)[k].next_state < new.sets@.len()
            &&& nonempty(new.sets@[new.result.trans(i)[k].next_state as int]@)
            &&& is_eps_closure(a, post_letter(a, new.sets@[i]@, new.result.trans(i)[k].label@), new.sets@[new.result.trans(i)[k].next_state as int]@)
        } by {
            assert(old.result.trans(i)[k] == new.result.trans(i)[k]);
            let t = old.result.trans(i)[k].next_state as int;
            assert(new.sets@[t] == old.sets@[t]);
        }
        if old.complete(a, i) {
            assert forall|x: Seq<char>| has_letter(a, x) && #[trigger] nonempty(post_letter(a, new.sets@[i]@, x))
                implies exists|k: int| 0 <= k < new.result.trans(i).len() && (#[trigger] new.result.trans(i)[k]).label@ == x by {
                assert(nonempty(post_letter(a, old.sets@[i]@, x)));
                let k = choose|k: int| 0 <= k < old.result.trans(i).len() && (#[trigger] old.result.trans(i)[k]).label@ == x;
                assert(new.result.trans(i)[k] == old.result.trans(i)[k]);
            }
        }
        if old.labels_distinct(i) {
            assert forall|k1: int, k2: int| 0 <= k1 < k2 < new.result.trans(i).len()
                implies (#[trigger] new.result.trans(i)[k1]).label@ != (#[trigger] new.result.trans(i)[k2]).label@ by {
                assert(old.result.trans(i)[k1] == new.result.trans(i)[k1]);
                assert(old.result.trans(i)[k2] == new.result.trans(i)[k2]);
            }
        }
    }

    /// Adds the transition of state `head` for the `ai`-th letter, if that
    /// letter leads somewhere, creating the state it leads to when new.
    #[verifier::rlimit(60)]
    fn add_letter(&mut self, a: &EpsilonNFA, alphabet: &Vec<String>, head: usize, ai: usize)
        requires
            a.wf(),
            old(self).inv(*a),
            head < old(self).sets@.len(),
            ai < alphabet@.len(),
            forall|i: int, j: int| 0 <= i < j < alphabet@.len() ==> alphabet@[i]@ != alphabet@[j]@,
            forall|x: Seq<char>| has_letter(*a, x) <==> #[trigger] has_string(alphabet@, x),
            old(self).trans_ok(*a, head as int),
            old(self).labels_distinct(head as int),
            old(self).labels_before(alphabet@, head as int, ai as int),
            old(self).complete_before(*a, alphabet@, head as int, ai as int),
            forall|i: int| head < i < old(self).sets@.len() ==> (#[trigger] old(self).result.trans(i)).len() == 0,
        ensures
            final(self).inv(*a),
            old(self).sets@.len() <= final(self).sets@.len(),
            forall|m: int| 0 <= m < old(self).sets@.len() ==> #[trigger] final(self).sets@[m] == old(self).sets@[m],
            forall|i: int| 0 <= i < old(self).sets@.len() && i != head ==> #[trigger] final(self).result.trans(i) == old(self).result.trans(i),
            forall|i: int| head < i < final(self).sets@.len() ==> (#[trigger] final(self).result.trans(i)).len() == 0,
            final(self).trans_ok(*a, head as int),
            final(self).labels_distinct(head as int),
            final(self).labels_before(alphabet@, head as int, ai + 1),
            final(self).complete_before(*a, alphabet@, head as int, ai + 1),
    {
        let ghost n = a.num_states();
        let c = a.successor_set(&self.sets[head], &alphabet[ai]);
        if any_flag(&c) {
            let ghost pre = self.result;
            let ghost sets_pre = self.sets@;
            let target = match find_flags(&self.sets, &c) {
                Some(j) => j,
                None => {
                    let fc = a.any_final_flag(&c);
                    let j = self.result.add_state(false, fc);
                    proof {
                        assert forall|m: int| 0 <= m < pre.num_states() implies #[trigger] self.result.states@[m] == pre.states@[m] by {}
                        let ext = flag_views(sets_pre.push(c));
                        assert forall|x: int, y: int| 0 <= x < ext.len() && 0 <= y < ext.len() && x != y implies ext[x] != ext[y] by {
                            if x < sets_pre.len() && y < sets_pre.len() {
                                assert(flag_views(sets_pre)[x] != flag_views(sets_pre)[y]);
                            } else if x < sets_pre.len() {
                                assert(sets_pre[x]@ != c@);
                            } else {
                                assert(sets_pre[y]@ != c@);
                            }
                        }
                        assert forall|m: int| 0 <= m < ext.len() implies (#[trigger] ext[m]).len() == n by {
                            if m < sets_pre.len() {
                                assert(sets_pre[m]@.len() == n);
                            }
                        }
                        lemma_distinct_flag_sets_bound(ext, n);
                    }
                    self.sets.push(c);
                    proof {
                        assert(flag_views(self.sets@) =~= flag_views(sets_pre.push(self.sets@[self.sets@.len() - 1])));
                        assert(self.result.final_at(j as int) == holds_final(*a, self.sets@[j as int]@));
                        assert forall|m: int| 0 <= m < self.sets@.len() implies (#[trigger] self.sets@[m])@.len() == n by {
                            if m < sets_pre.len() {
                                assert(self.sets@[m] == sets_pre[m]);
                            }
                        }
                        assert forall|m: int| 0 <= m < self.sets@.len() implies (#[trigger] self.result.final_at(m) <==> holds_final(*a, self.sets@[m]@)) by {
                            if m < sets_pre.len() {
                                assert(self.sets@[m] == sets_pre[m]);
                                assert(self.result.states@[m] == pre.states@[m]);
                                assert(old(self).result.final_at(m) <==> holds_final(*a, old(self).sets@[m]@));
                            }
                        }
                    }
                    j
                },
            };
            let ghost mid = self.result;
            let ghost sets_mid = self.sets@;
            proof {
                assert forall|m: int| 0 <= m < sets_pre.len() implies #[trigger] self.sets@[m] == sets_pre[m] by {}
                assert forall|m: int| 0 <= m < pre.num_states() implies #[trigger] mid.trans(m) == pre.trans(m) by {
                    assert(mid.states@[m] == pre.states@[m]);
                }
                assert forall|j: int| 0 < j < pre.num_states() implies #[trigger] has_earlier_parent(mid, j) by {
                    {
                        assert(has_earlier_parent(pre, j));
                        let m = choose|m: int| 0 <= m < j && #[trigger] pre.has_edge(m, j);
                        let k = choose|k: int| 0 <= k < pre.trans(m).len() && #[trigger] pre.trans(m)[k].next_state == j;
                        assert(mid.trans(m)[k] == pre.trans(m)[k]);
                        assert(mid.has_edge(m, j));
                    }
                }
            }
            proof {
                assert forall|m: int| 0 <= m < self.sets@.len() implies (#[trigger] mid.final_at(m) <==> holds_final(*a, self.sets@[m]@)) by {
                    if m < sets_pre.len() {
                        assert(old(self).result.final_at(m) <==> holds_final(*a, old(self).sets@[m]@));
                        assert(mid.states@[m] == pre.states@[m]);
                    }
                }
            }
            let x = alphabet[ai].clone();
            self.result.add_transition(head, x, target);
            proof {
                let r = self.result;
                assert forall|m: int| 0 <= m < r.num_states() && m != head implies #[trigger] r.states@[m] == mid.states@[m] by {}
                assert forall|m: int| 0 <= m < r.num_states() && m != head implies #[trigger] r.trans(m) == mid.trans(m) by {
                    assert(r.states@[m] == mid.states@[m]);
                }
                assert forall|m: int| 0 <= m < self.sets@.len() implies (#[trigger] r.final_at(m) <==> holds_final(*a, self.sets@[m]@)) by {
                    assert(mid.final_at(m) <==> holds_final(*a, self.sets@[m]@));
                    if m != head {
                        assert(r.states@[m] == mid.states@[m]);
                    }
                }
                assert(self.sets@[target as int]@ == c@);
                let tl = r.trans(head as int).len() - 1;
                assert(r.trans(head as int)[tl].label@ == alphabet@[ai as int]@);
                assert(r.trans(head as int)[tl].next_state == target);
                assert(has_string(alphabet@, alphabet@[ai as int]@));
                assert forall|j: int| 0 < j < r.num_states() implies #[trigger] has_earlier_parent(r, j) by {
                    if j < pre.num_states() {
                        assert(has_earlier_parent(mid, j));
                        let m = choose|m: int| 0 <= m < j && #[trigger] mid.has_edge(m, j);
                        let k = choose|k: int| 0 <= k < mid.trans(m).len() && #[trigger] mid.trans(m)[k].next_state == j;
                        assert(r.trans(m)[k] == mid.trans(m)[k]);
                        assert(r.has_edge(m, j));
                    } else {
                        assert(j == target);
                        assert(r.has_edge(head as int, j));
                    }
                }
                assert(self.sets@[head as int] == sets_pre[head as int]);
                assert forall|k: int| 0 <= k < r.trans(head as int).len() implies {
                    &&& has_letter(*a, (#[trigger] r.trans(head as int)[k]).label@)
                    &&& r.trans(head as int)[k].next_state < self.sets@.len()
                    &&& nonempty(self.sets@[r.trans(head as int)[k].next_state as int]@)
                    &&& is_eps_closure(*a, post_letter(*a, self.sets@[head as int]@, r.trans(head as int)[k].label@), self.sets@[r.trans(head as int)[k].next_state as int]@)
                } by {
                    if k < tl {
                        assert(r.trans(head as int)[k] == pre.trans(head as int)[k]);
                        let t = pre.trans(head as int)[k].next_state as int;
                        assert(self.sets@[t] == sets_pre[t]);
                    }
                }
                assert forall|k: int| 0 <= k < r.trans(head as int).len() implies exists|m: int| 0 <= m < ai + 1
                    && (#[trigger] r.trans(head as int)[k]).label@ == alphabet@[m]@ by {
                    if k < tl {
                        assert(r.trans(head as int)[k] == pre.trans(head as int)[k]);
                        let m = choose|m: int| 0 <= m < ai && (#[trigger] pre.trans(head as int)[k]).label@ == alphabet@[m]@;
                    }
                }
                assert forall|m: int| 0 <= m < ai + 1 && #[trigger] nonempty(post_letter(*a, self.sets@[head as int]@, alphabet@[m]@))
                    implies exists|k: int| 0 <= k < r.trans(head as int).len() && (#[trigger] r.trans(head as int)[k]).label@ == alphabet@[m]@ by {
                    if m < ai {
                        let k = choose|k: int| 0 <= k < pre.trans(head as int).len() && (#[trigger] pre.trans(head as int)[k]).label@ == alphabet@[m]@;
                        assert(r.trans(head as int)[k] == pre.trans(head as int)[k]);
                    } else {
                        assert(r.trans(head as int)[tl].label@ == alphabet@[m]@);
                    }
                }
                assert forall|k1: int, k2: int| 0 <= k1 < k2 < r.trans(head as int).len()
                    implies (#[trigger] r.trans(head as int)[k1]).label@ != (#[trigger] r.trans(head as int)[k2]).label@ by {
                    assert(r.trans(head as int)[k1] == pre.trans(head as int)[k1]);
                    if k2 == tl {
                        let m = choose|m: int| 0 <= m < ai && (#[trigger] pre.trans(head as int)[k1]).label@ == alphabet@[m]@;
                    } else {
                        assert(r.trans(head as int)[k2] == pre.trans(head as int)[k2]);
                    }
                }
                assert forall|i: int| head < i < self.sets@.len() implies (#[trigger] r.trans(i)).len() == 0 by {
                    if i < pre.num_states() {
                        assert(r.trans(i) == pre.trans(i));
                    }
                }
            }
        } else {
            proof {
                assert forall|m: int| 0 <= m < ai + 1 && #[trigger] nonempty(post_letter(*a, self.sets@[head as int]@, alphabet@[m]@))
                    implies exists|k: int| 0 <= k < self.result.trans(head as int).len() && (#[trigger] self.result.trans(head as int)[k]).label@ == alphabet@[m]@ by {
                }
                assert(old(self).labels_before(alphabet@, head as int, ai as int));
                assert forall|k: int| 0 <= k < self.result.trans(head as int).len() implies exists|m: int| 0 <= m < ai + 1
                    && (#[trigger] self.result.trans(head as int)[k]).label@ == alphabet@[m]@ by {
                    assert(self.result.trans(head as int)[k] == old(self).result.trans(head as int)[k]);
                    let m = choose|m: int| 0 <= m < ai && (#[trigger] old(self).result.trans(head as int)[k]).label@ == alphabet@[m]@;
                }
            }
        }
    }
}

impl Automata<Option<String>> {
    /// The powerset automaton (see `is_powerset`): an automaton without
    /// transitions that read nothing, which accepts the words this one
    /// accepts.
    pub fn to_nfa_powerset(&self) -> (r: NFA)
        requires
            self.wf(),
        ensures
            exists|sets: Seq<Seq<bool>>| #[trigger] is_powerset(*self, r, sets),
    {
        let ghost n = self.num_states();
        let alphabet = self.gather_alphabet();
        let mut result: NFA = Automata::new(0);
        let init_flags = self.initial_set_flags();
        let init = self.epsilon_closure(&init_flags);
        let f = self.any_final_flag(&init);
        result.add_state(true, f);
        let mut sets: Vec<Vec<bool>> = Vec::new();
        sets.push(init);
        let mut b = PowersetBuilder { result, sets };
        proof {
            lemma_distinct_flag_sets_bound(flag_views(b.sets@), n);
            assert(b.result.initial_states@ =~= seq![0usize]);
            assert(b.inv(*self));
        }
        let mut head: usize = 0;
        while head < b.sets.len()
            invariant
                self.wf(),
                n == self.num_states(),
                forall|i: int, j: int| 0 <= i < j < alphabet@.len() ==> alphabet@[i]@ != alphabet@[j]@,
                forall|x: Seq<char>| has_letter(*self, x) <==> #[trigger] has_string(alphabet@, x),
                b.inv(*self),
                head <= b.sets@.len(),
                forall|i: int| 0 <= i < head ==> #[trigger] b.trans_ok(*self, i),
                forall|i: int| 0 <= i < head ==> #[trigger] b.labels_distinct(i),
                forall|i: int| 0 <= i < head ==> #[trigger] b.complete(*self, i),
                forall|i: int| head <= i < b.sets@.len() ==> (#[trigger] b.result.trans(i)).len() == 0,
            decreases num_flag_sets(n) - b.sets@.len(), b.sets@.len() - head,
        {
            let ghost b0 = b;
            for ai in 0..alphabet.len()
                invariant
                    self.wf(),
                    n == self.num_states(),
                    forall|i: int, j: int| 0 <= i < j < alphabet@.len() ==> alphabet@[i]@ != alphabet@[j]@,
                    forall|x: Seq<char>| has_letter(*self, x) <==> #[trigger] has_string(alphabet@, x),
                    b.inv(*self),
                    head < b0.sets@.len() <= b.sets@.len(),
                    forall|m: int| 0 <= m < b0.sets@.len() ==> #[trigger] b.sets@[m] == b0.sets@[m],
                    forall|i: int| 0 <= i < b0.sets@.len() && i != head ==> #[trigger] b.result.trans(i) == b0.result.trans(i),
                    forall|i: int| head < i < b.sets@.len() ==> (#[trigger] b.result.trans(i)).len() == 0,
                    b.trans_ok(*self, head as int),
                    b.labels_distinct(head as int),
                    b.labels_before(alphabet@, head as int, ai as int),
                    b.complete_before(*self, alphabet@, head as int, ai as int),
            {
                let ghost bb = b;
                b.add_letter(self, &alphabet, head, ai);
                proof {
                    assert forall|m: int| 0 <= m < b0.sets@.len() implies #[trigger] b.sets@[m] == b0.sets@[m] by {
                        assert(b.sets@[m] == bb.sets@[m]);
                    }
                    assert forall|i: int| 0 <= i < b0.sets@.len() && i != head implies #[trigger] b.result.trans(i) == b0.result.trans(i) by {
                        assert(b.result.trans(i) == bb.result.trans(i));
                    }
                }
            }
            proof {
                assert forall|x: Seq<char>| has_letter(*self, x) && #[trigger] nonempty(post_letter(*self, b.sets@[head as int]@, x))
                    implies exists|k: int| 0 <= k < b.result.trans(head as int).len() && (#[trigger] b.result.trans(head as int)[k]).label@ == x by {
                    assert(has_string(alphabet@, x));
                    let m = choose|m: int| 0 <= m < alphabet@.len() && (#[trigger] alphabet@[m])@ == x;
                    assert(nonempty(post_letter(*self, b.sets@[head as int]@, alphabet@[m]@)));
                }
                assert(b.complete(*self, head as int));
                assert forall|i: int| 0 <= i < head + 1 implies #[trigger] b.trans_ok(*self, i) by {
                    if i < head {
                        assert(b0.trans_ok(*self, i));
                        PowersetBuilder::lemma_state_kept(&b0, &b, *self, i);
                    }
                }
                assert forall|i: int| 0 <= i < head + 1 implies #[trigger] b.labels_distinct(i) by {
                    if i < head {
                        assert(b0.trans_ok(*self, i));
                        assert(b0.labels_distinct(i));
                        PowersetBuilder::lemma_state_kept(&b0, &b, *self, i);
                    }
                }
                assert forall|i: int| 0 <= i < head + 1 implies #[trigger] b.complete(*self, i) by {
                    if i < head {
                        assert(b0.trans_ok(*self, i));
                        assert(b0.complete(*self, i));
                        PowersetBuilder::lemma_state_kept(&b0, &b, *self, i);
                    }
                }
                assert forall|i: int| head + 1 <= i < b.sets@.len() implies (#[trigger] b.result.trans(i)).len() == 0 by {}
            }
            head = head + 1;
        }
        proof {
            let result = b.result;
            assert forall|i: int| 0 <= i < result.num_states() implies #[trigger] result.reachable(i) by {
                lemma_reached_through_earlier(result, i);
            }
            let views = flag_views(b.sets@);
            assert forall|i: int| 0 <= i < views.len() implies (#[trigger] views[i]).len() == self.num_states() by {
                assert(b.sets@[i]@.len() == n);
            }
            assert forall|i: int, k: int| 0 <= i < views.len() && 0 <= k < result.trans(i).len() implies {
                &&& has_letter(*self, (#[trigger] result.trans(i)[k]).label@)
                &&& nonempty(views[result.trans(i)[k].next_state as int])
                &&& is_eps_closure(*self, post_letter(*self, views[i], result.trans(i)[k].label@), views[result.trans(i)[k].next_state as int])
            } by {
                assert(b.trans_ok(*self, i));
            }
            assert forall|i: int, x: Seq<char>| 0 <= i < views.len() && has_letter(*self, x) && #[trigger] nonempty(post_letter(*self, views[i], x))
                implies exists|k: int| 0 <= k < result.trans(i).len() && (#[trigger] result.trans(i)[k]).label@ == x by {
                assert(b.trans_ok(*self, i));
                assert(b.complete(*self, i));
            }
            assert forall|i: int, k1: int, k2: int| 0 <= i < views.len() && 0 <= k1 < k2 < result.trans(i).len()
                implies (#[trigger] result.trans(i)[k1]).label@ != (#[trigger] result.trans(i)[k2]).label@ by {
                assert(b.trans_ok(*self, i));
                assert(b.labels_distinct(i));
            }
            assert(is_powerset(*self, result, views));
        }
        b.result
    }
}

} // verus!
