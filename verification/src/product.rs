use vstd::prelude::*;
use crate::automata::{Automata, NFA};
use crate::dfa::{distinct, lemma_distinct_push};
use crate::dfa_minimization::{label_edge, lemma_label_edge_push, nfa_accepts};
use crate::label::lemma_push_contains;
use vstd::set_lib::{lemma_int_range, lemma_len_subset, set_int_range};

verus! {

/// `r` is the product of `a` and `b`, its `i`-th state standing for the
/// pair `pairs[i]` of a state of `a` and a state of `b`: the pairs of
/// initial states are the initial states; a pair accepts when both its
/// states accept; a pair moves on a letter to the pairs of states that both
/// automata reach on it; and every pair so reached is a state.
pub open spec fn is_product(a: NFA, b: NFA, r: NFA, pairs: Seq<(int, int)>) -> bool {
    &&& r.wf()
    &&& r.dimensions == 0
    &&& r.num_states() == pairs.len()
    &&& distinct(pairs)
    &&& forall|i: int| 0 <= i < pairs.len() ==> 0 <= (#[trigger] pairs[i]).0 < a.num_states() && 0 <= pairs[i].1 < b.num_states()
    &&& forall|i: int| 0 <= i < pairs.len() ==> (#[trigger] r.is_initial(i) <==> a.is_initial(pairs[i].0) && b.is_initial(pairs[i].1))
    &&& forall|p: int, q: int| #[trigger] a.is_initial(p) && #[trigger] b.is_initial(q) ==> pairs.contains((p, q))
    &&& forall|i: int| 0 <= i < pairs.len() ==> (#[trigger] r.final_at(i) <==> a.final_at(pairs[i].0) && b.final_at(pairs[i].1))
    &&& forall|i: int, x: Seq<char>, j: int| 0 <= i < pairs.len() && 0 <= j < pairs.len()
        ==> (#[trigger] label_edge(r, i, x, j) <==> label_edge(a, pairs[i].0, x, pairs[j].0) && label_edge(b, pairs[i].1, x, pairs[j].1))
    &&& forall|i: int, x: Seq<char>, p: int, q: int| 0 <= i < pairs.len() && #[trigger] label_edge(a, pairs[i].0, x, p)
        && #[trigger] label_edge(b, pairs[i].1, x, q) ==> pairs.contains((p, q))
}

/// Distinct pairs of states hold at most as many pairs as there are.
proof fn lemma_pairs_bound(pairs: Seq<(int, int)>, n1: nat, n2: nat)
    requires
        distinct(pairs),
        forall|i: int| 0 <= i < pairs.len() ==> 0 <= (#[trigger] pairs[i]).0 < n1 && 0 <= pairs[i].1 < n2,
    ensures
        pairs.len() <= n1 * n2,
{
    let codes = pairs.map_values(|p: (int, int)| p.0 * n2 + p.1);
    assert forall|i: int| 0 <= i < codes.len() implies 0 <= #[trigger] codes[i] < n1 * n2 by {
        let p = pairs[i];
        assert(0 <= p.0 * n2 + p.1 < n1 * n2) by (nonlinear_arith)
            requires
                0 <= p.0 < n1,
                0 <= p.1 < n2,
        ;
    }
    assert forall|i: int, j: int| 0 <= i < codes.len() && 0 <= j < codes.len() && i != j implies codes[i] != codes[j] by {
        let p = pairs[i];
        let q = pairs[j];
        assert(p != q);
        if codes[i] == codes[j] {
            assert(p.0 == q.0 && p.1 == q.1) by (nonlinear_arith)
                requires
                    0 <= p.0,
                    0 <= p.1 < n2,
                    0 <= q.0,
                    0 <= q.1 < n2,
                    p.0 * n2 + p.1 == q.0 * n2 + q.1,
            ;
        }
    }
    assert(codes.no_duplicates());
    codes.unique_seq_to_set();
    lemma_int_range(0, (n1 * n2) as int);
    assert forall|x: int| codes.to_set().contains(x) implies set_int_range(0, (n1 * n2) as int).contains(x) by {
        let i = choose|i: int| 0 <= i < codes.len() && codes[i] == x;
    }
    lemma_len_subset(codes.to_set(), set_int_range(0, (n1 * n2) as int));
}

/// The position of a pair in `pairs`.
fn find_pair(pairs: &Vec<(usize, usize)>, p: (usize, usize)) -> (r: Option<usize>)
    ensures
        match r {
            Some(i) => i < pairs@.len() && pairs@[i as int] == p,
            None => forall|i: int| 0 <= i < pairs@.len() ==> pairs@[i] != p,
        },
{
    for i in 0..pairs.len()
        invariant
            forall|k: int| 0 <= k < i ==> pairs@[k] != p,
    {
        if pairs[i].0 == p.0 && pairs[i].1 == p.1 {
            return Some(i);
        }
    }
    None
}

/// The pairs as pairs of integers.
pub open spec fn pair_views(pairs: Seq<(usize, usize)>) -> Seq<(int, int)> {
    pairs.map_values(|p: (usize, usize)| (p.0 as int, p.1 as int))
}

/// A product under construction: the automaton built so far and the pair
/// of states that each of its states stands for.
struct ProductBuilder {
    result: NFA,
    pairs: Vec<(usize, usize)>,
}

impl ProductBuilder {
    spec fn views(&self) -> Seq<(int, int)> {
        pair_views(self.pairs@)
    }

    /// What holds of every state, whether its transitions are built or not.
    spec fn inv(&self, a: NFA, b: NFA) -> bool {
        &&& self.result.wf()
        &&& self.result.dimensions == 0
        &&& self.result.num_states() == self.pairs@.len()
        &&& distinct(self.views())
        &&& forall|i: int| 0 <= i < self.pairs@.len() ==> (#[trigger] self.pairs@[i]).0 < a.num_states()
            && self.pairs@[i].1 < b.num_states()
        &&& forall|i: int| 0 <= i < self.pairs@.len() ==> (#[trigger] self.result.is_initial(i)
            <==> a.is_initial(self.pairs@[i].0 as int) && b.is_initial(self.pairs@[i].1 as int))
        &&& forall|p: int, q: int| #[trigger] a.is_initial(p) && #[trigger] b.is_initial(q) ==> self.views().contains((p, q))
        &&& forall|i: int| 0 <= i < self.pairs@.len() ==> (#[trigger] self.result.final_at(i)
            <==> a.final_at(self.pairs@[i].0 as int) && b.final_at(self.pairs@[i].1 as int))
    }

    /// The transitions of state `i` are exactly the joint moves of its pair.
    spec fn edges_ok(&self, a: NFA, b: NFA, i: int) -> bool {
        &&& forall|x: Seq<char>, j: int| 0 <= j < self.pairs@.len() ==> (#[trigger] label_edge(self.result, i, x, j)
            <==> label_edge(a, self.views()[i].0, x, self.views()[j].0) && label_edge(b, self.views()[i].1, x, self.views()[j].1))
        &&& forall|x: Seq<char>, p: int, q: int| #[trigger] label_edge(a, self.views()[i].0, x, p)
            && #[trigger] label_edge(b, self.views()[i].1, x, q) ==> self.views().contains((p, q))
    }

    /// The pair of transitions (`k1`, `k2`) of state `i`'s pair was handled
    /// before (`m1`, `m2`).
    spec fn handled(k1: int, k2: int, m1: int, m2: int) -> bool {
        k1 < m1 || (k1 == m1 && k2 < m2)
    }

    /// The transitions of state `head` are the joint moves of the pairs of
    /// transitions handled before (`m1`, `m2`).
    spec fn partial_ok(&self, a: NFA, b: NFA, head: int, m1: int, m2: int) -> bool {
        let p = self.views()[head];
        &&& forall|x: Seq<char>, j: int| 0 <= j < self.pairs@.len() ==> (#[trigger] label_edge(self.result, head, x, j)
            <==> exists|k1: int, k2: int| #![trigger a.trans(p.0)[k1], b.trans(p.1)[k2]] Self::handled(k1, k2, m1, m2)
                && 0 <= k1 < a.trans(p.0).len() && 0 <= k2 < b.trans(p.1).len()
                && a.trans(p.0)[k1].label@ == x && b.trans(p.1)[k2].label@ == x
                && self.views()[j] == (a.trans(p.0)[k1].next_state as int, b.trans(p.1)[k2].next_state as int))
        &&& forall|k1: int, k2: int| #![trigger a.trans(p.0)[k1], b.trans(p.1)[k2]] Self::handled(k1, k2, m1, m2)
            && 0 <= k1 < a.trans(p.0).len() && 0 <= k2 < b.trans(p.1).len()
            && a.trans(p.0)[k1].label@ == b.trans(p.1)[k2].label@
            ==> self.views().contains((a.trans(p.0)[k1].next_state as int, b.trans(p.1)[k2].next_state as int))
    }
}

/// A state whose transitions did not change has the same edges.
proof fn lemma_label_edge_same(old: NFA, new: NFA, i: int)
    requires
        0 <= i < old.num_states(),
        old.num_states() <= new.num_states(),
        new.states@[i] == old.states@[i],
    ensures
        forall|x: Seq<char>, j: int| #[trigger] label_edge(new, i, x, j) == label_edge(old, i, x, j),
{
    assert(new.trans(i) == old.trans(i));
}

/// A well-formed automaton has no edge into a state it does not have.
proof fn lemma_label_edge_target(r: NFA, i: int, x: Seq<char>, j: int)
    requires
        r.wf(),
        label_edge(r, i, x, j),
    ensures
        0 <= j < r.num_states(),
{
    let k = choose|k: int| 0 <= k < r.trans(i).len() && (#[trigger] r.trans(i)[k]).label@ == x && r.trans(i)[k].next_state == j;
    assert(r.trans(i)[k].next_state < r.num_states());
}

impl ProductBuilder {
    /// Handles the pair of transitions (`k1`, `k2`) of the pair of state
    /// `head`: when both read the same letter, adds the transition to the
    /// state of the pair of their targets, adding that state if needed.
    #[verifier::rlimit(80)]
    fn add_joint(&mut self, a: &NFA, b: &NFA, head: usize, k1: usize, k2: usize)
        requires
            a.wf(),
            b.wf(),
            old(self).inv(*a, *b),
            head < old(self).pairs@.len(),
            k1 < a.trans(old(self).pairs@[head as int].0 as int).len(),
            k2 < b.trans(old(self).pairs@[head as int].1 as int).len(),
            old(self).partial_ok(*a, *b, head as int, k1 as int, k2 as int),
            forall|i: int| 0 <= i < head ==> #[trigger] old(self).edges_ok(*a, *b, i),
            forall|i: int| head < i < old(self).pairs@.len() ==> (#[trigger] old(self).result.trans(i)).len() == 0,
        ensures
            final(self).inv(*a, *b),
            old(self).pairs@.len() <= final(self).pairs@.len(),
            forall|m: int| 0 <= m < old(self).pairs@.len() ==> #[trigger] final(self).pairs@[m] == old(self).pairs@[m],
            final(self).partial_ok(*a, *b, head as int, k1 as int, k2 + 1),
            forall|i: int| 0 <= i < head ==> #[trigger] final(self).edges_ok(*a, *b, i),
            forall|i: int| head < i < final(self).pairs@.len() ==> (#[trigger] final(self).result.trans(i)).len() == 0,
    {
        let ghost pre = *self;
        let ghost pv = self.views()[head as int];
        let (s1, s2) = self.pairs[head];
        assert(self.views()[head as int] == (s1 as int, s2 as int));
        let t1 = &a.states[s1].transitions[k1];
        let t2 = &b.states[s2].transitions[k2];
        assert(*t1 == a.trans(s1 as int)[k1 as int]);
        assert(*t2 == b.trans(s2 as int)[k2 as int]);
        if t1.label == t2.label {
            let key = (t1.next_state, t2.next_state);
            let ghost kv = (key.0 as int, key.1 as int);
            assert(key.0 < a.num_states() && key.1 < b.num_states());
            let target = match find_pair(&self.pairs, key) {
                Some(i) => {
                    proof {
                        assert(self.views()[i as int] == kv);
                    }
                    i
                },
                None => {
                    let f = a.states[key.0].is_final && b.states[key.1].is_final;
                    let ghost before = *self;
                    self.result.add_state(false, f);
                    self.pairs.push(key);
                    let j = self.pairs.len() - 1;
                    proof {
                        assert(!before.views().contains(kv)) by {
                            if before.views().contains(kv) {
                                let m = choose|m: int| 0 <= m < before.views().len() && before.views()[m] == kv;
                                assert(before.pairs@[m] == key);
                            }
                        }
                        assert(self.views() =~= before.views().push(kv));
                        lemma_push_contains(before.views(), kv);
                        lemma_distinct_push(before.views(), kv);
                        assert(self.views()[j as int] == kv);
                        assert forall|i: int| 0 <= i < self.pairs@.len() implies (#[trigger] self.result.is_initial(i)
                            <==> a.is_initial(self.pairs@[i].0 as int) && b.is_initial(self.pairs@[i].1 as int)) by {
                            if i < before.pairs@.len() {
                                assert(self.pairs@[i] == before.pairs@[i]);
                                assert(before.result.is_initial(i) <==> a.is_initial(before.pairs@[i].0 as int) && b.is_initial(before.pairs@[i].1 as int));
                                assert(self.result.initial_states@ == before.result.initial_states@);
                            } else {
                                assert(i == j);
                                if self.result.is_initial(i) {
                                    let m = choose|m: int| 0 <= m < self.result.initial_states@.len() && #[trigger] self.result.initial_states@[m] as int == i;
                                    assert(before.result.initial_states@[m] < before.result.num_states());
                                }
                                if a.is_initial(key.0 as int) && b.is_initial(key.1 as int) {
                                    assert(before.views().contains((key.0 as int, key.1 as int)));
                                }
                            }
                        }
                        assert forall|i: int| 0 <= i < self.pairs@.len() implies (#[trigger] self.result.final_at(i)
                            <==> a.final_at(self.pairs@[i].0 as int) && b.final_at(self.pairs@[i].1 as int)) by {
                            if i < before.pairs@.len() {
                                assert(self.pairs@[i] == before.pairs@[i]);
                                assert(self.result.states@[i] == before.result.states@[i]);
                                assert(before.result.final_at(i) <==> a.final_at(before.pairs@[i].0 as int) && b.final_at(before.pairs@[i].1 as int));
                            }
                        }
                        assert forall|i: int| 0 <= i < self.pairs@.len() implies (#[trigger] self.pairs@[i]).0 < a.num_states()
                            && self.pairs@[i].1 < b.num_states() by {
                            if i < before.pairs@.len() {
                                assert(self.pairs@[i] == before.pairs@[i]);
                            }
                        }
                        lemma_pairs_bound(self.views(), a.num_states(), b.num_states());
                        assert(self.result.trans(j as int).len() == 0);
                    }
                    j
                },
            };
            let ghost mid = *self;
            proof {
                assert(mid.views()[target as int] == kv);
                assert forall|m: int| 0 <= m < pre.pairs@.len() implies #[trigger] mid.pairs@[m] == pre.pairs@[m] by {}
                assert forall|m: int| 0 <= m < pre.pairs@.len() implies #[trigger] mid.result.states@[m] == pre.result.states@[m] by {}
            }
            self.result.add_transition(head, t1.label.clone(), target);
            proof {
                let r = self.result;
                lemma_label_edge_push(mid.result, r, head as int, t1.label, target);
                assert forall|i: int| 0 <= i < self.pairs@.len() implies (#[trigger] self.result.is_initial(i)
                    <==> a.is_initial(self.pairs@[i].0 as int) && b.is_initial(self.pairs@[i].1 as int)) by {
                    assert(mid.result.is_initial(i) <==> a.is_initial(mid.pairs@[i].0 as int) && b.is_initial(mid.pairs@[i].1 as int));
                }
                assert forall|i: int| 0 <= i < self.pairs@.len() implies (#[trigger] self.result.final_at(i)
                    <==> a.final_at(self.pairs@[i].0 as int) && b.final_at(self.pairs@[i].1 as int)) by {
                    assert(mid.result.final_at(i) <==> a.final_at(mid.pairs@[i].0 as int) && b.final_at(mid.pairs@[i].1 as int));
                    if i != head {
                        assert(r.states@[i] == mid.result.states@[i]);
                    }
                }
                assert forall|i: int| 0 <= i < head implies #[trigger] self.edges_ok(*a, *b, i) by {
                    assert(pre.edges_ok(*a, *b, i));
                    lemma_label_edge_same(pre.result, mid.result, i);
                    assert(r.states@[i] == mid.result.states@[i]);
                    lemma_label_edge_same(mid.result, r, i);
                    assert(self.views()[i] == pre.views()[i]);
                    assert forall|x: Seq<char>, j: int| 0 <= j < self.pairs@.len() implies (#[trigger] label_edge(self.result, i, x, j)
                        <==> label_edge(*a, self.views()[i].0, x, self.views()[j].0) && label_edge(*b, self.views()[i].1, x, self.views()[j].1)) by {
                        if j < pre.pairs@.len() {
                            assert(self.views()[j] == pre.views()[j]);
                        } else {
                            if label_edge(pre.result, i, x, j) {
                                lemma_label_edge_target(pre.result, i, x, j);
                            }
                            if label_edge(*a, self.views()[i].0, x, self.views()[j].0) && label_edge(*b, self.views()[i].1, x, self.views()[j].1) {
                                assert(pre.views().contains((self.views()[j].0, self.views()[j].1)));
                                assert(self.views()[j] == kv);
                            }
                        }
                    }
                    assert forall|x: Seq<char>, p: int, q: int| #[trigger] label_edge(*a, self.views()[i].0, x, p)
                        && #[trigger] label_edge(*b, self.views()[i].1, x, q) implies self.views().contains((p, q)) by {
                        assert(pre.views().contains((p, q)));
                        let m = choose|m: int| 0 <= m < pre.views().len() && pre.views()[m] == (p, q);
                        assert(self.views()[m] == pre.views()[m]);
                    }
                }
                assert forall|i: int| head < i < self.pairs@.len() implies (#[trigger] self.result.trans(i)).len() == 0 by {
                    assert(r.states@[i] == mid.result.states@[i]);
                    if i < pre.pairs@.len() {
                        assert(mid.result.states@[i] == pre.result.states@[i]);
                        assert(pre.result.trans(i).len() == 0);
                        assert(mid.result.trans(i) == pre.result.trans(i));
                    } else {
                        assert(i == pre.pairs@.len());
                        assert(mid.result.trans(i).len() == 0);
                    }
                }
                assert(self.views()[head as int] == pv);
                assert(pre.views()[head as int] == pv);
                lemma_label_edge_same(pre.result, mid.result, head as int);
                assert forall|x: Seq<char>, j: int| 0 <= j < self.pairs@.len() implies (#[trigger] label_edge(self.result, head as int, x, j)
                    <==> exists|m1: int, m2: int| #![trigger a.trans(pv.0)[m1], b.trans(pv.1)[m2]] Self::handled(m1, m2, k1 as int, k2 + 1)
                        && 0 <= m1 < a.trans(pv.0).len() && 0 <= m2 < b.trans(pv.1).len()
                        && a.trans(pv.0)[m1].label@ == x && b.trans(pv.1)[m2].label@ == x
                        && self.views()[j] == (a.trans(pv.0)[m1].next_state as int, b.trans(pv.1)[m2].next_state as int)) by {
                    if j < pre.pairs@.len() {
                        assert(self.views()[j] == pre.views()[j]);
                    } else {
                        if label_edge(pre.result, head as int, x, j) {
                            lemma_label_edge_target(pre.result, head as int, x, j);
                        }
                    }
                    if exists|m1: int, m2: int| #![trigger a.trans(pv.0)[m1], b.trans(pv.1)[m2]] Self::handled(m1, m2, k1 as int, k2 as int)
                        && 0 <= m1 < a.trans(pv.0).len() && 0 <= m2 < b.trans(pv.1).len()
                        && a.trans(pv.0)[m1].label@ == x && b.trans(pv.1)[m2].label@ == x
                        && self.views()[j] == (a.trans(pv.0)[m1].next_state as int, b.trans(pv.1)[m2].next_state as int) {
                        let (m1, m2) = choose|m1: int, m2: int| #![trigger a.trans(pv.0)[m1], b.trans(pv.1)[m2]] Self::handled(m1, m2, k1 as int, k2 as int)
                            && 0 <= m1 < a.trans(pv.0).len() && 0 <= m2 < b.trans(pv.1).len()
                            && a.trans(pv.0)[m1].label@ == x && b.trans(pv.1)[m2].label@ == x
                            && self.views()[j] == (a.trans(pv.0)[m1].next_state as int, b.trans(pv.1)[m2].next_state as int);
                        if j >= pre.pairs@.len() {
                            assert(pre.views().contains((a.trans(pv.0)[m1].next_state as int, b.trans(pv.1)[m2].next_state as int)));
                            let m = choose|m: int| 0 <= m < pre.views().len() && pre.views()[m] == (a.trans(pv.0)[m1].next_state as int, b.trans(pv.1)[m2].next_state as int);
                            assert(self.views()[m] == pre.views()[m]);
                        }
                    }
                    if x == t1.label@ && j == target {
                        assert(a.trans(pv.0)[k1 as int].label@ == x);
                    }
                }
                assert forall|m1: int, m2: int| #![trigger a.trans(pv.0)[m1], b.trans(pv.1)[m2]] Self::handled(m1, m2, k1 as int, k2 + 1)
                    && 0 <= m1 < a.trans(pv.0).len() && 0 <= m2 < b.trans(pv.1).len()
                    && a.trans(pv.0)[m1].label@ == b.trans(pv.1)[m2].label@
                    implies self.views().contains((a.trans(pv.0)[m1].next_state as int, b.trans(pv.1)[m2].next_state as int)) by {
                    if m1 == k1 && m2 == k2 {
                        assert(self.views()[target as int] == kv);
                    } else {
                        assert(pre.views().contains((a.trans(pv.0)[m1].next_state as int, b.trans(pv.1)[m2].next_state as int)));
                        let m = choose|m: int| 0 <= m < pre.views().len() && pre.views()[m] == (a.trans(pv.0)[m1].next_state as int, b.trans(pv.1)[m2].next_state as int);
                        assert(self.views()[m] == pre.views()[m]);
                    }
                }
                assert forall|p: int, q: int| #[trigger] a.is_initial(p) && #[trigger] b.is_initial(q) implies self.views().contains((p, q)) by {
                    assert(pre.views().contains((p, q)));
                    let m = choose|m: int| 0 <= m < pre.views().len() && pre.views()[m] == (p, q);
                    assert(self.views()[m] == pre.views()[m]);
                }
            }
        } else {
            proof {
                assert(self.partial_ok(*a, *b, head as int, k1 as int, k2 + 1)) by {
                    assert forall|x: Seq<char>, j: int| 0 <= j < self.pairs@.len() implies (#[trigger] label_edge(self.result, head as int, x, j)
                        <==> exists|m1: int, m2: int| #![trigger a.trans(pv.0)[m1], b.trans(pv.1)[m2]] Self::handled(m1, m2, k1 as int, k2 + 1)
                            && 0 <= m1 < a.trans(pv.0).len() && 0 <= m2 < b.trans(pv.1).len()
                            && a.trans(pv.0)[m1].label@ == x && b.trans(pv.1)[m2].label@ == x
                            && self.views()[j] == (a.trans(pv.0)[m1].next_state as int, b.trans(pv.1)[m2].next_state as int)) by {
                        if exists|m1: int, m2: int| #![trigger a.trans(pv.0)[m1], b.trans(pv.1)[m2]] Self::handled(m1, m2, k1 as int, k2 + 1)
                            && 0 <= m1 < a.trans(pv.0).len() && 0 <= m2 < b.trans(pv.1).len()
                            && a.trans(pv.0)[m1].label@ == x && b.trans(pv.1)[m2].label@ == x
                            && self.views()[j] == (a.trans(pv.0)[m1].next_state as int, b.trans(pv.1)[m2].next_state as int) {
                            let (m1, m2) = choose|m1: int, m2: int| #![trigger a.trans(pv.0)[m1], b.trans(pv.1)[m2]] Self::handled(m1, m2, k1 as int, k2 + 1)
                                && 0 <= m1 < a.trans(pv.0).len() && 0 <= m2 < b.trans(pv.1).len()
                                && a.trans(pv.0)[m1].label@ == x && b.trans(pv.1)[m2].label@ == x
                                && self.views()[j] == (a.trans(pv.0)[m1].next_state as int, b.trans(pv.1)[m2].next_state as int);
                            if m1 == k1 && m2 == k2 {
                                assert(t1.label@ == t2.label@);
                            }
                        }
                    }
                }
            }
        }
    }
}

impl ProductBuilder {
    /// There are at most as many states as pairs of states.
    proof fn lemma_size(&self, a: NFA, b: NFA)
        requires
            self.inv(a, b),
        ensures
            self.pairs@.len() <= a.num_states() * b.num_states(),
    {
        assert forall|i: int| 0 <= i < self.views().len() implies 0 <= (#[trigger] self.views()[i]).0 < a.num_states()
            && 0 <= self.views()[i].1 < b.num_states() by {
            assert(self.views()[i] == (self.pairs@[i].0 as int, self.pairs@[i].1 as int));
        }
        lemma_pairs_bound(self.views(), a.num_states(), b.num_states());
    }

    /// Handles every pair of transitions of the pair of state `head`.
    fn expand(&mut self, a: &NFA, b: &NFA, head: usize)
        requires
            a.wf(),
            b.wf(),
            old(self).inv(*a, *b),
            head < old(self).pairs@.len(),
            forall|i: int| 0 <= i < head ==> #[trigger] old(self).edges_ok(*a, *b, i),
            forall|i: int| head <= i < old(self).pairs@.len() ==> (#[trigger] old(self).result.trans(i)).len() == 0,
        ensures
            final(self).inv(*a, *b),
            old(self).pairs@.len() <= final(self).pairs@.len(),
            forall|m: int| 0 <= m < old(self).pairs@.len() ==> #[trigger] final(self).pairs@[m] == old(self).pairs@[m],
            forall|i: int| 0 <= i <= head ==> #[trigger] final(self).edges_ok(*a, *b, i),
            forall|i: int| head < i < final(self).pairs@.len() ==> (#[trigger] final(self).result.trans(i)).len() == 0,
    {
        let ghost pre = *self;
        let (s1, s2) = self.pairs[head];
        assert(pre.pairs@[head as int] == (s1, s2));
        let ghost pv = (s1 as int, s2 as int);
        assert(self.views()[head as int] == pv);
        let n1 = a.states[s1].transitions.len();
        let n2 = b.states[s2].transitions.len();
        assert(n1 == a.trans(pv.0).len() && n2 == b.trans(pv.1).len());
        proof {
            assert(self.partial_ok(*a, *b, head as int, 0, 0)) by {
                assert forall|x: Seq<char>, j: int| 0 <= j < self.pairs@.len() implies !#[trigger] label_edge(self.result, head as int, x, j) by {
                    assert(self.result.trans(head as int).len() == 0);
                }
            }
        }
        for k1 in 0..n1
            invariant
                a.wf(),
                b.wf(),
                self.inv(*a, *b),
                head < pre.pairs@.len() <= self.pairs@.len(),
                forall|m: int| 0 <= m < pre.pairs@.len() ==> #[trigger] self.pairs@[m] == pre.pairs@[m],
                self.views()[head as int] == pv,
                n1 == a.trans(pv.0).len(),
                n2 == b.trans(pv.1).len(),
                self.partial_ok(*a, *b, head as int, k1 as int, 0),
                forall|i: int| 0 <= i < head ==> #[trigger] self.edges_ok(*a, *b, i),
                forall|i: int| head < i < self.pairs@.len() ==> (#[trigger] self.result.trans(i)).len() == 0,
        {
            for k2 in 0..n2
                invariant
                    a.wf(),
                    b.wf(),
                    self.inv(*a, *b),
                    head < pre.pairs@.len() <= self.pairs@.len(),
                    forall|m: int| 0 <= m < pre.pairs@.len() ==> #[trigger] self.pairs@[m] == pre.pairs@[m],
                    self.views()[head as int] == pv,
                    k1 < n1,
                    n1 == a.trans(pv.0).len(),
                    n2 == b.trans(pv.1).len(),
                    self.partial_ok(*a, *b, head as int, k1 as int, k2 as int),
                    forall|i: int| 0 <= i < head ==> #[trigger] self.edges_ok(*a, *b, i),
                    forall|i: int| head < i < self.pairs@.len() ==> (#[trigger] self.result.trans(i)).len() == 0,
            {
                let ghost before = *self;
                proof {
                    assert(self.pairs@[head as int] == pre.pairs@[head as int]);
                }
                self.add_joint(a, b, head, k1, k2);
                proof {
                    assert forall|m: int| 0 <= m < pre.pairs@.len() implies #[trigger] self.pairs@[m] == pre.pairs@[m] by {
                        assert(self.pairs@[m] == before.pairs@[m]);
                    }
                    assert(self.views()[head as int] == before.views()[head as int]);
                }
            }
            proof {
                let p = pv;
                assert forall|m1: int, m2: int| 0 <= m2 < n2 implies (Self::handled(m1, m2, k1 as int, n2 as int)
                    <==> Self::handled(m1, m2, k1 + 1, 0)) by {}
            }
        }
        proof {
            let p = pv;
            assert(self.edges_ok(*a, *b, head as int)) by {
                assert forall|x: Seq<char>, j: int| 0 <= j < self.pairs@.len() implies (#[trigger] label_edge(self.result, head as int, x, j)
                    <==> label_edge(*a, self.views()[head as int].0, x, self.views()[j].0) && label_edge(*b, self.views()[head as int].1, x, self.views()[j].1)) by {
                    if label_edge(*a, p.0, x, self.views()[j].0) && label_edge(*b, p.1, x, self.views()[j].1) {
                        let m1 = choose|m1: int| 0 <= m1 < a.trans(p.0).len() && (#[trigger] a.trans(p.0)[m1]).label@ == x
                            && a.trans(p.0)[m1].next_state == self.views()[j].0;
                        let m2 = choose|m2: int| 0 <= m2 < b.trans(p.1).len() && (#[trigger] b.trans(p.1)[m2]).label@ == x
                            && b.trans(p.1)[m2].next_state == self.views()[j].1;
                        assert(Self::handled(m1, m2, n1 as int, 0));
                    }
                    if label_edge(self.result, head as int, x, j) {
                        let (m1, m2) = choose|m1: int, m2: int| #![trigger a.trans(p.0)[m1], b.trans(p.1)[m2]] Self::handled(m1, m2, n1 as int, 0)
                            && 0 <= m1 < a.trans(p.0).len() && 0 <= m2 < b.trans(p.1).len()
                            && a.trans(p.0)[m1].label@ == x && b.trans(p.1)[m2].label@ == x
                            && self.views()[j] == (a.trans(p.0)[m1].next_state as int, b.trans(p.1)[m2].next_state as int);
                        assert(label_edge(*a, p.0, x, self.views()[j].0));
                        assert(label_edge(*b, p.1, x, self.views()[j].1));
                    }
                }
                assert forall|x: Seq<char>, q1: int, q2: int| #[trigger] label_edge(*a, self.views()[head as int].0, x, q1)
                    && #[trigger] label_edge(*b, self.views()[head as int].1, x, q2) implies self.views().contains((q1, q2)) by {
                    let m1 = choose|m1: int| 0 <= m1 < a.trans(p.0).len() && (#[trigger] a.trans(p.0)[m1]).label@ == x
                        && a.trans(p.0)[m1].next_state == q1;
                    let m2 = choose|m2: int| 0 <= m2 < b.trans(p.1).len() && (#[trigger] b.trans(p.1)[m2]).label@ == x
                        && b.trans(p.1)[m2].next_state == q2;
                    assert(Self::handled(m1, m2, n1 as int, 0));
                }
            }
        }
    }
}

impl Automata<String> {
    /// The product of this automaton and `other` (see `is_product`), built
    /// from the pairs of initial states by following the pairs of
    /// transitions that read the same letter: it accepts the words that
    /// both accept.
    pub fn product(&self, other: &NFA) -> (r: NFA)
        requires
            self.wf(),
            other.wf(),
        ensures
            exists|pairs: Seq<(int, int)>| #[trigger] is_product(*self, *other, r, pairs),
    {
        let ghost na = self.num_states();
        let ghost nb = other.num_states();
        let mut b = ProductBuilder { result: Automata::new(0), pairs: Vec::new() };
        proof {
            assert(b.views() =~= Seq::<(int, int)>::empty());
        }
        for i in 0..self.initial_states.len()
            invariant
                self.wf(),
                other.wf(),
                na == self.num_states(),
                nb == other.num_states(),
                b.result.wf(),
                b.result.dimensions == 0,
                b.result.num_states() == b.pairs@.len(),
                distinct(b.views()),
                b.result.initial_states@ == Seq::new(b.pairs@.len(), |m: int| m as usize),
                forall|m: int| 0 <= m < b.pairs@.len() ==> (#[trigger] b.result.trans(m)).len() == 0,
                forall|m: int| 0 <= m < b.pairs@.len() ==> self.is_initial((#[trigger] b.pairs@[m]).0 as int)
                    && other.is_initial(b.pairs@[m].1 as int) && b.pairs@[m].0 < na && b.pairs@[m].1 < nb,
                forall|m: int| 0 <= m < b.pairs@.len() ==> (#[trigger] b.result.final_at(m)
                    <==> self.final_at(b.pairs@[m].0 as int) && other.final_at(b.pairs@[m].1 as int)),
                forall|i2: int, j2: int| 0 <= i2 < i && 0 <= j2 < other.initial_states@.len() ==> b.views().contains(
                    (#[trigger] self.initial_states@[i2] as int, #[trigger] other.initial_states@[j2] as int),
                ),
        {
            for j in 0..other.initial_states.len()
                invariant
                    self.wf(),
                    other.wf(),
                    na == self.num_states(),
                    nb == other.num_states(),
                    i < self.initial_states@.len(),
                    b.result.wf(),
                    b.result.dimensions == 0,
                    b.result.num_states() == b.pairs@.len(),
                    distinct(b.views()),
                    b.result.initial_states@ == Seq::new(b.pairs@.len(), |m: int| m as usize),
                    forall|m: int| 0 <= m < b.pairs@.len() ==> (#[trigger] b.result.trans(m)).len() == 0,
                    forall|m: int| 0 <= m < b.pairs@.len() ==> self.is_initial((#[trigger] b.pairs@[m]).0 as int)
                        && other.is_initial(b.pairs@[m].1 as int) && b.pairs@[m].0 < na && b.pairs@[m].1 < nb,
                    forall|m: int| 0 <= m < b.pairs@.len() ==> (#[trigger] b.result.final_at(m)
                        <==> self.final_at(b.pairs@[m].0 as int) && other.final_at(b.pairs@[m].1 as int)),
                    forall|i2: int, j2: int| 0 <= i2 < i && 0 <= j2 < other.initial_states@.len() ==> b.views().contains(
                        (#[trigger] self.initial_states@[i2] as int, #[trigger] other.initial_states@[j2] as int),
                    ),
                    forall|j2: int| 0 <= j2 < j ==> b.views().contains(
                        (self.initial_states@[i as int] as int, #[trigger] other.initial_states@[j2] as int),
                    ),
            {
                let key = (self.initial_states[i], other.initial_states[j]);
                let ghost kv = (key.0 as int, key.1 as int);
                proof {
                    assert(self.is_initial(kv.0));
                    assert(other.is_initial(kv.1));
                }
                match find_pair(&b.pairs, key) {
                    Some(m) => {
                        proof {
                            assert(b.views()[m as int] == kv);
                        }
                    },
                    None => {
                        let f = self.states[key.0].is_final && other.states[key.1].is_final;
                        let ghost before = b;
                        let idx = b.result.add_state(true, f);
                        b.pairs.push(key);
                        assert(idx == before.pairs@.len());
                        assert(b.result.trans(idx as int).len() == 0);
                        assert(b.result.final_at(idx as int) == f);
                        proof {
                            assert(!before.views().contains(kv)) by {
                                if before.views().contains(kv) {
                                    let m = choose|m: int| 0 <= m < before.views().len() && before.views()[m] == kv;
                                    assert(before.pairs@[m] == key);
                                }
                            }
                            assert(b.views() =~= before.views().push(kv));
                            lemma_push_contains(before.views(), kv);
                            lemma_distinct_push(before.views(), kv);
                            assert(b.result.initial_states@ =~= Seq::new(b.pairs@.len(), |m: int| m as usize));
                            assert forall|m: int| 0 <= m < b.pairs@.len() implies (#[trigger] b.result.trans(m)).len() == 0 by {
                                if m < before.pairs@.len() {
                                    assert(b.result.states@[m] == before.result.states@[m]);
                                    assert(before.result.trans(m).len() == 0);
                                }
                            }
                            assert forall|m: int| 0 <= m < b.pairs@.len() implies (#[trigger] b.result.final_at(m)
                                <==> self.final_at(b.pairs@[m].0 as int) && other.final_at(b.pairs@[m].1 as int)) by {
                                if m < before.pairs@.len() {
                                    assert(b.result.states@[m] == before.result.states@[m]);
                                    assert(b.pairs@[m] == before.pairs@[m]);
                                    assert(before.result.final_at(m) <==> self.final_at(before.pairs@[m].0 as int) && other.final_at(before.pairs@[m].1 as int));
                                }
                            }
                            assert forall|m: int| 0 <= m < b.pairs@.len() implies self.is_initial((#[trigger] b.pairs@[m]).0 as int)
                                && other.is_initial(b.pairs@[m].1 as int) && b.pairs@[m].0 < na && b.pairs@[m].1 < nb by {
                                if m < before.pairs@.len() {
                                    assert(b.pairs@[m] == before.pairs@[m]);
                                }
                            }
                        }
                    },
                }
                proof {
                    assert(b.views().contains(kv));
                }
            }
        }
        proof {
            assert(b.pairs@.len() == b.pairs.len());
            assert forall|m: int| 0 <= m < b.pairs@.len() implies (#[trigger] b.result.is_initial(m)
                <==> self.is_initial(b.pairs@[m].0 as int) && other.is_initial(b.pairs@[m].1 as int)) by {
                assert(b.result.initial_states@[m] == m as usize);
                assert(b.result.initial_states@[m] as int == m);
            }
            assert forall|p: int, q: int| #[trigger] self.is_initial(p) && #[trigger] other.is_initial(q) implies b.views().contains((p, q)) by {
                let i2 = choose|i2: int| 0 <= i2 < self.initial_states@.len() && #[trigger] self.initial_states@[i2] as int == p;
                let j2 = choose|j2: int| 0 <= j2 < other.initial_states@.len() && #[trigger] other.initial_states@[j2] as int == q;
                assert(b.views().contains((self.initial_states@[i2] as int, other.initial_states@[j2] as int)));
            }
            assert(b.inv(*self, *other));
            b.lemma_size(*self, *other);
        }
        let mut head: usize = 0;
        while head < b.pairs.len()
            invariant
                self.wf(),
                other.wf(),
                na == self.num_states(),
                nb == other.num_states(),
                b.inv(*self, *other),
                b.pairs@.len() <= na * nb,
                head <= b.pairs@.len(),
                forall|i: int| 0 <= i < head ==> #[trigger] b.edges_ok(*self, *other, i),
                forall|i: int| head <= i < b.pairs@.len() ==> (#[trigger] b.result.trans(i)).len() == 0,
            decreases na * nb - b.pairs@.len(), b.pairs@.len() - head,
        {
            b.expand(self, other, head);
            proof {
                b.lemma_size(*self, *other);
            }
            head = head + 1;
        }
        proof {
            let views = b.views();
            assert forall|i: int| 0 <= i < views.len() implies 0 <= (#[trigger] views[i]).0 < na && 0 <= views[i].1 < nb by {
                assert(views[i] == (b.pairs@[i].0 as int, b.pairs@[i].1 as int));
            }
            assert forall|i: int| 0 <= i < views.len() implies (#[trigger] b.result.is_initial(i)
                <==> self.is_initial(views[i].0) && other.is_initial(views[i].1)) by {
                assert(views[i] == (b.pairs@[i].0 as int, b.pairs@[i].1 as int));
            }
            assert forall|i: int| 0 <= i < views.len() implies (#[trigger] b.result.final_at(i)
                <==> self.final_at(views[i].0) && other.final_at(views[i].1)) by {
                assert(views[i] == (b.pairs@[i].0 as int, b.pairs@[i].1 as int));
            }
            assert forall|i: int, x: Seq<char>, j: int| 0 <= i < views.len() && 0 <= j < views.len()
                implies (#[trigger] label_edge(b.result, i, x, j) <==> label_edge(*self, views[i].0, x, views[j].0)
                && label_edge(*other, views[i].1, x, views[j].1)) by {
                assert(b.edges_ok(*self, *other, i));
            }
            assert forall|i: int, x: Seq<char>, p: int, q: int| 0 <= i < views.len() && #[trigger] label_edge(*self, views[i].0, x, p)
                && #[trigger] label_edge(*other, views[i].1, x, q) implies views.contains((p, q)) by {
                assert(b.edges_ok(*self, *other, i));
            }
            assert(is_product(*self, *other, b.result, views));
        }
        b.result
    }
}

/// A word read up to `p` extends by a letter exactly along the edges that
/// read it.
proof fn lemma_prefix_edge(a: NFA, w: Seq<Seq<char>>, x: Seq<char>, p: int)
    requires
        a.wf(),
    ensures
        a.prefix_at(w.push(x), p) <==> exists|q: int| #[trigger] a.prefix_at(w, q) && label_edge(a, q, x, p),
{
    a.lemma_prefix_step(w, x, p);
    if a.prefix_at(w.push(x), p) {
        let (q, k) = choose|q: int, k: int| #[trigger] a.prefix_at(w, q) && 0 <= q < a.num_states() && 0 <= k < a.trans(q).len()
            && a.trans(q)[k].next_state == p && #[trigger] a.trans(q)[k].label.deep_view() == x;
        assert(label_edge(a, q, x, p));
    }
    if exists|q: int| #[trigger] a.prefix_at(w, q) && label_edge(a, q, x, p) {
        let q = choose|q: int| #[trigger] a.prefix_at(w, q) && label_edge(a, q, x, p);
        let k = choose|k: int| 0 <= k < a.trans(q).len() && (#[trigger] a.trans(q)[k]).label@ == x && a.trans(q)[k].next_state == p;
        assert(a.trans(q)[k].label.deep_view() == x);
    }
}

/// The runs of the product reading `w` are the pairs of runs of the two
/// automata reading `w`.
proof fn lemma_product_prefix(a: NFA, b: NFA, r: NFA, pairs: Seq<(int, int)>, w: Seq<Seq<char>>)
    requires
        a.wf(),
        b.wf(),
        is_product(a, b, r, pairs),
    ensures
        forall|i: int| 0 <= i < pairs.len() ==> (#[trigger] r.prefix_at(w, i) <==> a.prefix_at(w, pairs[i].0) && b.prefix_at(w, pairs[i].1)),
        forall|p: int, q: int| #[trigger] a.prefix_at(w, p) && #[trigger] b.prefix_at(w, q) ==> pairs.contains((p, q)),
    decreases w.len(),
{
    if w.len() == 0 {
        assert(w =~= Seq::<Seq<char>>::empty());
        assert forall|i: int| 0 <= i < pairs.len() implies (#[trigger] r.prefix_at(w, i) <==> a.prefix_at(w, pairs[i].0) && b.prefix_at(w, pairs[i].1)) by {
            r.lemma_prefix_empty(i);
            a.lemma_prefix_empty(pairs[i].0);
            b.lemma_prefix_empty(pairs[i].1);
        }
        assert forall|p: int, q: int| #[trigger] a.prefix_at(w, p) && #[trigger] b.prefix_at(w, q) implies pairs.contains((p, q)) by {
            a.lemma_prefix_empty(p);
            b.lemma_prefix_empty(q);
        }
    } else {
        let u = w.drop_last();
        let x = w.last();
        assert(u.push(x) =~= w);
        lemma_product_prefix(a, b, r, pairs, u);
        assert forall|i: int| 0 <= i < pairs.len() implies (#[trigger] r.prefix_at(w, i) <==> a.prefix_at(w, pairs[i].0) && b.prefix_at(w, pairs[i].1)) by {
            lemma_prefix_edge(r, u, x, i);
            lemma_prefix_edge(a, u, x, pairs[i].0);
            lemma_prefix_edge(b, u, x, pairs[i].1);
            if r.prefix_at(w, i) {
                let m = choose|m: int| #[trigger] r.prefix_at(u, m) && label_edge(r, m, x, i);
                assert(0 <= m < pairs.len());
                assert(r.prefix_at(u, m));
                assert(a.prefix_at(u, pairs[m].0));
                assert(b.prefix_at(u, pairs[m].1));
            }
            if a.prefix_at(w, pairs[i].0) && b.prefix_at(w, pairs[i].1) {
                let q1 = choose|q: int| #[trigger] a.prefix_at(u, q) && label_edge(a, q, x, pairs[i].0);
                let q2 = choose|q: int| #[trigger] b.prefix_at(u, q) && label_edge(b, q, x, pairs[i].1);
                assert(pairs.contains((q1, q2)));
                let m = choose|m: int| 0 <= m < pairs.len() && pairs[m] == (q1, q2);
                assert(label_edge(r, m, x, i));
                assert(r.prefix_at(u, m));
            }
        }
        assert forall|p: int, q: int| #[trigger] a.prefix_at(w, p) && #[trigger] b.prefix_at(w, q) implies pairs.contains((p, q)) by {
            lemma_prefix_edge(a, u, x, p);
            lemma_prefix_edge(b, u, x, q);
            let q1 = choose|q0: int| #[trigger] a.prefix_at(u, q0) && label_edge(a, q0, x, p);
            let q2 = choose|q0: int| #[trigger] b.prefix_at(u, q0) && label_edge(b, q0, x, q);
            assert(pairs.contains((q1, q2)));
            let m = choose|m: int| 0 <= m < pairs.len() && pairs[m] == (q1, q2);
            assert(label_edge(a, pairs[m].0, x, p) && label_edge(b, pairs[m].1, x, q));
        }
    }
}

/// The product accepts exactly the words that both automata accept.
pub proof fn lemma_product_language(a: NFA, b: NFA, r: NFA, pairs: Seq<(int, int)>, w: Seq<Seq<char>>)
    requires
        a.wf(),
        b.wf(),
        is_product(a, b, r, pairs),
    ensures
        nfa_accepts(r, w) <==> nfa_accepts(a, w) && nfa_accepts(b, w),
{
    lemma_product_prefix(a, b, r, pairs, w);
    if nfa_accepts(r, w) {
        let i = choose|i: int| #[trigger] r.prefix_at(w, i) && r.final_at(i);
        assert(0 <= i < r.num_states());
        assert(a.prefix_at(w, pairs[i].0) && b.prefix_at(w, pairs[i].1));
    }
    if nfa_accepts(a, w) && nfa_accepts(b, w) {
        let p = choose|p: int| #[trigger] a.prefix_at(w, p) && a.final_at(p);
        let q = choose|q: int| #[trigger] b.prefix_at(w, q) && b.final_at(q);
        assert(pairs.contains((p, q)));
        let i = choose|i: int| 0 <= i < pairs.len() && pairs[i] == (p, q);
        assert(r.prefix_at(w, i));
    }
}

} // verus!
