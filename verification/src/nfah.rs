use vstd::prelude::*;
use crate::automata::{Automata, EpsilonNFA, NFAH, all_false, count_false, lemma_count_false_update};
use crate::dfa::distinct;

verus! {

/// The label that a transition labelled `label` gets in the projection on
/// `var`: its letter when it reads `var`, nothing otherwise.
pub open spec fn projected_label(label: (Seq<char>, usize), var: nat) -> Option<Seq<char>> {
    if label.1 == var {
        Some(label.0)
    } else {
        None
    }
}

/// Whether the copy of state `q` accepts: as `q` does when `loc` is
/// `None`, and exactly when `q` is `loc` otherwise.
pub open spec fn kept_final(a: NFAH, loc: Option<usize>, q: int) -> bool {
    match loc {
        None => a.final_at(q),
        Some(l) => q == l,
    }
}

/// `r` is a copy of the states of `a` reachable from an initial state, the
/// `k`-th state of `r` copying state `order[k]` of `a`: the copies of the
/// initial states are the initial states, a copy accepts as `kept_final`
/// says, and each transition of `a` becomes one of its copy, in the same
/// order, labelled by `projected_label`.
pub open spec fn is_projection(a: NFAH, var: nat, loc: Option<usize>, r: EpsilonNFA, order: Seq<usize>) -> bool {
    &&& r.wf()
    &&& r.dimensions == 0
    &&& r.num_states() == order.len()
    &&& distinct(order)
    &&& forall|k: int| 0 <= k < order.len() ==> (#[trigger] order[k]) < a.num_states() && a.reachable(order[k] as int)
    &&& forall|q: int| a.reachable(q) ==> exists|k: int| 0 <= k < order.len() && #[trigger] order[k] == q
    &&& forall|k: int| 0 <= k < order.len() ==> (#[trigger] r.final_at(k) <==> kept_final(a, loc, order[k] as int))
    &&& forall|k: int| 0 <= k < order.len() ==> (#[trigger] r.is_initial(k) <==> a.is_initial(order[k] as int))
    &&& distinct(r.initial_states@)
    &&& forall|k: int| 0 <= k < order.len() ==> (#[trigger] r.trans(k)).len() == a.trans(order[k] as int).len()
    &&& forall|k: int, j: int| 0 <= k < order.len() && 0 <= j < r.trans(k).len() ==> {
        &&& (#[trigger] r.trans(k)[j]).label.deep_view() == projected_label(a.trans(order[k] as int)[j].label.deep_view(), var)
        &&& order[r.trans(k)[j].next_state as int] == a.trans(order[k] as int)[j].next_state
    }
}

impl Automata<(String, usize)> {
    /// Whether the copy of state `q` accepts (see `kept_final`).
    fn keeps_final(&self, loc: Option<usize>, q: usize) -> (r: bool)
        requires
            q < self.num_states(),
        ensures
            r == kept_final(*self, loc, q as int),
    {
        match loc {
            None => self.states[q].is_final,
            Some(l) => q == l,
        }
    }

    /// Copies the states reachable from an initial state, breadth first,
    /// relabelling each transition by `projected_label`; returns the copy
    /// and, for each of its states, the state it copies.
    #[verifier::rlimit(80)]
    pub(crate) fn project_with_map(&self, var: usize, loc: Option<usize>) -> (r: (EpsilonNFA, Vec<usize>))
        requires
            self.wf(),
        ensures
            is_projection(*self, var as nat, loc, r.0, r.1@),
    {
        let n = self.states.len();
        let mut projected: EpsilonNFA = Automata::new(0);
        let mut order: Vec<usize> = Vec::new();
        let mut seen = all_false(n);
        let mut to_new: Vec<usize> = Vec::new();
        for i in 0..n
            invariant
                to_new@.len() == i,
        {
            to_new.push(0);
        }
        for i in 0..self.initial_states.len()
            invariant
                self.wf(),
                n == self.num_states(),
                projected.wf(),
                projected.dimensions == 0,
                projected.num_states() == order@.len(),
                seen@.len() == n,
                to_new@.len() == n,
                count_false(seen@) + order@.len() == n,
                forall|q: int| 0 <= q < n ==> (#[trigger] seen@[q] ==> to_new@[q] < order@.len() && order@[to_new@[q] as int] == q),
                forall|k: int| 0 <= k < order@.len() ==> (#[trigger] order@[k]) < n && seen@[order@[k] as int] && to_new@[order@[k] as int] == k,
                forall|k: int| 0 <= k < order@.len() ==> self.reachable(#[trigger] order@[k] as int),
                forall|k: int| 0 <= k < order@.len() ==> (#[trigger] projected.final_at(k) <==> kept_final(*self, loc, order@[k] as int)),
                forall|k: int| 0 <= k < order@.len() ==> (#[trigger] projected.trans(k)).len() == 0,
                projected.initial_states@.len() == order@.len(),
                forall|k: int| 0 <= k < order@.len() ==> #[trigger] projected.initial_states@[k] == k,
                forall|k: int| 0 <= k < order@.len() ==> self.is_initial(#[trigger] order@[k] as int),
                forall|m: int| 0 <= m < i ==> seen@[#[trigger] self.initial_states@[m] as int],
        {
            let q = self.initial_states[i];
            proof {
                assert(self.is_initial(q as int));
            }
            if !seen[q] {
                let kf = self.keeps_final(loc, q);
                let ghost pre = projected;
                proof {
                    lemma_count_false_update(seen@, q as int);
                }
                let k = projected.add_state(true, kf);
                proof {
                    self.lemma_reachable_in_zero(q as int);
                    assert(self.reachable_in(q as int, 0));
                    assert forall|kq: int| 0 <= kq < pre.num_states() implies #[trigger] projected.states@[kq] == pre.states@[kq] by {
                    }
                    assert forall|kq: int| 0 <= kq < pre.num_states() implies #[trigger] projected.final_at(kq) == pre.final_at(kq) by {
                        assert(projected.states@[kq] == pre.states@[kq]);
                    }
                    assert forall|kq: int| 0 <= kq < pre.num_states() implies #[trigger] projected.trans(kq) == pre.trans(kq) by {
                        assert(projected.states@[kq] == pre.states@[kq]);
                    }
                }
                seen.set(q, true);
                to_new.set(q, k);
                order.push(q);
            }
        }
        let ghost num_initial = order@.len();
        let mut head: usize = 0;
        while head < order.len()
            invariant
                self.wf(),
                n == self.num_states(),
                projected.wf(),
                projected.dimensions == 0,
                projected.num_states() == order@.len(),
                seen@.len() == n,
                to_new@.len() == n,
                head <= order@.len(),
                count_false(seen@) + order@.len() == n,
                num_initial <= order@.len(),
                forall|q: int| 0 <= q < n ==> (#[trigger] seen@[q] ==> to_new@[q] < order@.len() && order@[to_new@[q] as int] == q),
                forall|k: int| 0 <= k < order@.len() ==> (#[trigger] order@[k]) < n && seen@[order@[k] as int] && to_new@[order@[k] as int] == k,
                forall|k: int| 0 <= k < order@.len() ==> self.reachable(#[trigger] order@[k] as int),
                forall|k: int| 0 <= k < order@.len() ==> (#[trigger] projected.final_at(k) <==> kept_final(*self, loc, order@[k] as int)),
                forall|q: int| #[trigger] self.is_initial(q) ==> seen@[q],
                projected.initial_states@.len() == num_initial,
                forall|k: int| 0 <= k < num_initial ==> #[trigger] projected.initial_states@[k] == k,
                forall|k: int| 0 <= k < order@.len() ==> (self.is_initial(#[trigger] order@[k] as int) <==> k < num_initial),
                forall|k: int| head <= k < order@.len() ==> (#[trigger] projected.trans(k)).len() == 0,
                forall|k: int| 0 <= k < head ==> (#[trigger] projected.trans(k)).len() == self.trans(order@[k] as int).len(),
                forall|k: int, j: int| 0 <= k < head && 0 <= j < projected.trans(k).len() ==> {
                    &&& (#[trigger] projected.trans(k)[j]).label.deep_view() == projected_label(self.trans(order@[k] as int)[j].label.deep_view(), var as nat)
                    &&& projected.trans(k)[j].next_state < order@.len()
                    &&& order@[projected.trans(k)[j].next_state as int] == self.trans(order@[k] as int)[j].next_state
                },
                forall|k: int, q: int| 0 <= k < head && #[trigger] self.has_edge(order@[k] as int, q) ==> seen@[q],
            decreases count_false(seen@), order@.len() - head,
        {
            let old = order[head];
            let m = self.states[old].transitions.len();
            let ghost before = projected;
            let ghost seen_before = seen@;
            for j in 0..m
                invariant
                    self.wf(),
                    n == self.num_states(),
                    projected.wf(),
                    projected.dimensions == 0,
                    projected.num_states() == order@.len(),
                    seen@.len() == n,
                    to_new@.len() == n,
                    head < order@.len(),
                    old == order@[head as int],
                    m == self.trans(old as int).len(),
                    num_initial <= order@.len(),
                    count_false(seen@) + order@.len() == n,
                    count_false(seen_before) + before.num_states() == n,
                    before.num_states() <= order@.len(),
                    forall|q: int| 0 <= q < n ==> (#[trigger] seen@[q] ==> to_new@[q] < order@.len() && order@[to_new@[q] as int] == q),
                    forall|k: int| 0 <= k < order@.len() ==> (#[trigger] order@[k]) < n && seen@[order@[k] as int] && to_new@[order@[k] as int] == k,
                    forall|k: int| 0 <= k < order@.len() ==> self.reachable(#[trigger] order@[k] as int),
                    forall|k: int| 0 <= k < order@.len() ==> (#[trigger] projected.final_at(k) <==> kept_final(*self, loc, order@[k] as int)),
                    forall|q: int| #[trigger] self.is_initial(q) ==> seen@[q],
                    projected.initial_states@.len() == num_initial,
                    forall|k: int| 0 <= k < num_initial ==> #[trigger] projected.initial_states@[k] == k,
                    forall|k: int| 0 <= k < order@.len() ==> (self.is_initial(#[trigger] order@[k] as int) <==> k < num_initial),
                    forall|k: int| head < k < order@.len() ==> (#[trigger] projected.trans(k)).len() == 0,
                    projected.trans(head as int).len() == j,
                    forall|k: int| 0 <= k < head ==> #[trigger] projected.trans(k) == before.trans(k),
                    forall|k: int| 0 <= k < head ==> (#[trigger] projected.trans(k)).len() == self.trans(order@[k] as int).len(),
                    forall|k: int, i: int| 0 <= k < head && 0 <= i < projected.trans(k).len() ==> {
                        &&& (#[trigger] projected.trans(k)[i]).label.deep_view() == projected_label(self.trans(order@[k] as int)[i].label.deep_view(), var as nat)
                        &&& projected.trans(k)[i].next_state < order@.len()
                        &&& order@[projected.trans(k)[i].next_state as int] == self.trans(order@[k] as int)[i].next_state
                    },
                    forall|i: int| 0 <= i < j ==> {
                        &&& (#[trigger] projected.trans(head as int)[i]).label.deep_view() == projected_label(self.trans(old as int)[i].label.deep_view(), var as nat)
                        &&& projected.trans(head as int)[i].next_state < order@.len()
                        &&& order@[projected.trans(head as int)[i].next_state as int] == self.trans(old as int)[i].next_state
                    },
                    forall|i: int| 0 <= i < j ==> seen@[#[trigger] self.trans(old as int)[i].next_state as int],
                    forall|k: int, q: int| 0 <= k < head && #[trigger] self.has_edge(order@[k] as int, q) ==> seen@[q],
            {
                let nxt = self.states[old].transitions[j].next_state;
                proof {
                    assert(self.trans(old as int)[j as int].next_state == nxt);
                    assert(nxt < n);
                }
                if !seen[nxt] {
                    let kf = self.keeps_final(loc, nxt);
                    let ghost pre = projected;
                    proof {
                        lemma_count_false_update(seen@, nxt as int);
                    }
                    let k = projected.add_state(false, kf);
                    proof {
                        assert(self.has_edge(old as int, nxt as int));
                        let kk = head as int;
                        assert(self.reachable(order@[kk] as int));
                        let steps = choose|steps: nat| #[trigger] self.reachable_in(old as int, steps);
                        self.lemma_reachable_in_step(nxt as int, steps);
                        assert(self.reachable_in(nxt as int, steps + 1));
                        assert(!self.is_initial(nxt as int));
                        assert forall|kq: int| 0 <= kq < pre.num_states() implies #[trigger] projected.trans(kq) == pre.trans(kq) by {
                            assert(projected.states@[kq] == pre.states@[kq]);
                        }
                        assert forall|kq: int| 0 <= kq < pre.num_states() implies #[trigger] projected.final_at(kq) == pre.final_at(kq) by {
                            assert(projected.states@[kq] == pre.states@[kq]);
                        }
                    }
                    seen.set(nxt, true);
                    to_new.set(nxt, k);
                    order.push(nxt);
                }
                let target = to_new[nxt];
                let label = if self.states[old].transitions[j].label.1 == var {
                    Some(self.states[old].transitions[j].label.0.clone())
                } else {
                    None
                };
                let ghost pre2 = projected;
                proof {
                    assert(label.deep_view() == projected_label(self.trans(old as int)[j as int].label.deep_view(), var as nat));
                }
                projected.add_transition(head, label, target);
                proof {
                    assert forall|kq: int| 0 <= kq < order@.len() && kq != head implies #[trigger] projected.trans(kq) == pre2.trans(kq) by {
                        assert(projected.states@[kq] == pre2.states@[kq]);
                    }
                    assert forall|kq: int| 0 <= kq < order@.len() implies #[trigger] projected.final_at(kq) == pre2.final_at(kq) by {
                        if kq != head {
                            assert(projected.states@[kq] == pre2.states@[kq]);
                        }
                    }
                    assert(projected.trans(head as int)[j as int].label == label);
                }
            }
            proof {
                assert forall|q: int| #[trigger] self.has_edge(order@[head as int] as int, q) implies seen@[q] by {
                    let i = choose|i: int| 0 <= i < self.trans(old as int).len() && #[trigger] self.trans(old as int)[i].next_state == q;
                    assert(seen@[self.trans(old as int)[i].next_state as int]);
                }
            }
            head = head + 1;
        }
        proof {
            assert forall|q: int| self.reachable(q) implies exists|k: int| 0 <= k < order@.len() && #[trigger] order@[k] == q by {
                let steps = choose|steps: nat| #[trigger] self.reachable_in(q, steps);
                assert forall|r: int, p: int| 0 <= r < seen@.len() && seen@[r] && #[trigger] self.has_edge(r, p) implies seen@[p] by {
                    let k = to_new@[r] as int;
                    assert(order@[k] == r);
                    assert(self.has_edge(order@[k] as int, p));
                }
                self.lemma_closed_contains_reachable(seen@, q, steps);
                let k = to_new@[q] as int;
                assert(order@[k] == q);
            }
            assert forall|a: int, b: int| 0 <= a < order@.len() && 0 <= b < order@.len() && a != b implies order@[a] != order@[b] by {
                assert(to_new@[order@[a] as int] == a);
                assert(to_new@[order@[b] as int] == b);
            }
            assert forall|k: int| 0 <= k < order@.len() implies (#[trigger] projected.is_initial(k) <==> self.is_initial(order@[k] as int)) by {
                if k < num_initial {
                    assert(projected.initial_states@[k] == k);
                }
                if projected.is_initial(k) {
                    let i = choose|i: int| 0 <= i < projected.initial_states@.len() && #[trigger] projected.initial_states@[i] as int == k;
                    assert(projected.initial_states@[i] == i);
                }
            }
            assert forall|a: int, b: int| 0 <= a < projected.initial_states@.len() && 0 <= b < projected.initial_states@.len() && a != b
                implies projected.initial_states@[a] != projected.initial_states@[b] by {
                assert(projected.initial_states@[a] == a);
                assert(projected.initial_states@[b] == b);
            }
        }
        (projected, order)
    }

    /// The projection on `var`: the states reachable from an initial state,
    /// with the letters that `var` reads kept and every other transition
    /// turned into one that reads nothing. A copy accepts when its state
    /// does.
    pub fn project(&self, var: usize) -> (r: EpsilonNFA)
        requires
            self.wf(),
        ensures
            exists|order: Seq<usize>| #[trigger] is_projection(*self, var as nat, None, r, order),
    {
        let (r, order) = self.project_with_map(var, None);
        proof {
            assert(is_projection(*self, var as nat, None, r, order@));
        }
        r
    }

    /// The projection on `var`, with the copy of `loc` as the only
    /// accepting state.
    pub fn project_with_final(&self, loc: usize, var: usize) -> (r: EpsilonNFA)
        requires
            self.wf(),
        ensures
            exists|order: Seq<usize>| #[trigger] is_projection(*self, var as nat, Some(loc), r, order),
    {
        let (r, order) = self.project_with_map(var, Some(loc));
        proof {
            assert(is_projection(*self, var as nat, Some(loc), r, order@));
        }
        r
    }
}

} // verus!
