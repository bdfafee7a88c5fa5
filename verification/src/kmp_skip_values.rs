use vstd::prelude::*;
pub use crate::quick_search_skip_values::VectorWithVer;
use crate::automata::{EpsilonNFA, NFA, NFAH, all_false, count_false, lemma_count_false_update};
use crate::nfa::is_powerset;
use crate::nfah::is_projection;

verus! {

/// A transition of `a` from `p` and one of `b` from `q` read the same
/// letter and lead to `p2` and `q2`.
pub open spec fn joint_step(a: NFA, b: NFA, p: int, q: int, p2: int, q2: int) -> bool {
    &&& 0 <= p < a.num_states()
    &&& 0 <= q < b.num_states()
    &&& exists|ka: int, kb: int|
        0 <= ka < a.trans(p).len() && 0 <= kb < b.trans(q).len()
            && (#[trigger] a.trans(p)[ka]).label@ == (#[trigger] b.trans(q)[kb]).label@
            && a.trans(p)[ka].next_state == p2 && b.trans(q)[kb].next_state == q2
}

/// The `t`-th pair of states of a joint run steps to the next one.
pub open spec fn joint_linked(a: NFA, b: NFA, ps: Seq<int>, qs: Seq<int>, t: int) -> bool {
    joint_step(a, b, ps[t], qs[t], ps[t + 1], qs[t + 1])
}

/// `ps` and `qs` are runs of `a` and `b` that read the same letters.
pub open spec fn is_joint_run(a: NFA, b: NFA, ps: Seq<int>, qs: Seq<int>) -> bool {
    &&& ps.len() == qs.len()
    &&& ps.len() >= 1
    &&& forall|t: int| 0 <= t < ps.len() - 1 ==> #[trigger] joint_linked(a, b, ps, qs, t)
}

/// From `p` in `a` and `q` in `b`, the two automata can read a same
/// nonempty word and end where one of them accepts.
pub open spec fn joint_run_to_final(a: NFA, b: NFA, p: int, q: int) -> bool {
    exists|ps: Seq<int>, qs: Seq<int>|
        #[trigger] is_joint_run(a, b, ps, qs) && ps.len() >= 2 && ps[0] == p && qs[0] == q
            && (a.final_at(ps.last()) || b.final_at(qs.last()))
}

/// From `p0` in `a` and `q0` in `b`, the two automata can read a same word
/// and reach `p` and `q`.
pub open spec fn joint_reaches(a: NFA, b: NFA, p0: int, q0: int, p: int, q: int) -> bool {
    exists|ps: Seq<int>, qs: Seq<int>|
        #[trigger] is_joint_run(a, b, ps, qs) && ps[0] == p0 && qs[0] == q0 && ps.last() == p && qs.last() == q
}

/// The pair (`p`, `q`) is flagged in `rows`.
pub open spec fn pair_seen(rows: Seq<Vec<bool>>, p: int, q: int) -> bool {
    0 <= p < rows.len() && 0 <= q < rows[p]@.len() && rows[p]@[q]
}

/// The number of pairs not flagged in `rows`.
pub open spec fn unseen_pairs(rows: Seq<Vec<bool>>) -> nat
    decreases rows.len(),
{
    if rows.len() == 0 {
        0
    } else {
        unseen_pairs(rows.drop_last()) + count_false(rows.last()@)
    }
}

/// Flagging one more pair leaves one pair fewer unflagged.
proof fn lemma_unseen_pairs_update(rows: Seq<Vec<bool>>, p: int, row: Vec<bool>, q: int)
    requires
        0 <= p < rows.len(),
        0 <= q < rows[p]@.len(),
        !rows[p]@[q],
        row@ == rows[p]@.update(q, true),
    ensures
        unseen_pairs(rows.update(p, row)) + 1 == unseen_pairs(rows),
    decreases rows.len(),
{
    lemma_count_false_update(rows[p]@, q);
    let n = rows.update(p, row);
    if p == rows.len() - 1 {
        assert(n.drop_last() =~= rows.drop_last());
    } else {
        assert(n.drop_last() =~= rows.drop_last().update(p, row));
        lemma_unseen_pairs_update(rows.drop_last(), p, row, q);
    }
}

/// A joint run extended by one joint step is a joint run.
proof fn lemma_extend_run(a: NFA, b: NFA, ps: Seq<int>, qs: Seq<int>, p2: int, q2: int)
    requires
        is_joint_run(a, b, ps, qs),
        joint_step(a, b, ps.last(), qs.last(), p2, q2),
    ensures
        is_joint_run(a, b, ps.push(p2), qs.push(q2)),
{
    let ps2 = ps.push(p2);
    let qs2 = qs.push(q2);
    assert forall|t: int| 0 <= t < ps2.len() - 1 implies #[trigger] joint_linked(a, b, ps2, qs2, t) by {
        if t < ps.len() - 1 {
            assert(joint_linked(a, b, ps, qs, t));
        }
    }
}

/// When the flagged pairs are closed under joint steps, and no joint step
/// from a flagged pair ends where one automaton accepts, a joint run from a
/// flagged pair only visits flagged pairs and ends where neither accepts.
proof fn lemma_closed_runs(a: NFA, b: NFA, rows: Seq<Vec<bool>>, ps: Seq<int>, qs: Seq<int>)
    requires
        forall|p: int, q: int, p2: int, q2: int| pair_seen(rows, p, q) && #[trigger] joint_step(a, b, p, q, p2, q2)
            ==> !a.final_at(p2) && !b.final_at(q2) && pair_seen(rows, p2, q2),
        is_joint_run(a, b, ps, qs),
        pair_seen(rows, ps[0], qs[0]),
    ensures
        pair_seen(rows, ps.last(), qs.last()),
        ps.len() >= 2 ==> !a.final_at(ps.last()) && !b.final_at(qs.last()),
    decreases ps.len(),
{
    if ps.len() >= 2 {
        let pp = ps.drop_last();
        let qq = qs.drop_last();
        assert forall|t: int| 0 <= t < pp.len() - 1 implies #[trigger] joint_linked(a, b, pp, qq, t) by {
            assert(joint_linked(a, b, ps, qs, t));
        }
        lemma_closed_runs(a, b, rows, pp, qq);
        assert(joint_linked(a, b, ps, qs, ps.len() - 2));
    }
}

/// Whether, from some state of `starts` in `a` and some initial state of
/// `b`, the two automata can read a same nonempty word and end where one
/// of them accepts; the search visits the pairs of states breadth first.
fn overlaps(a: &NFA, b: &NFA, starts: &Vec<usize>) -> (r: bool)
    requires
        a.wf(),
        b.wf(),
        forall|i: int| 0 <= i < starts@.len() ==> #[trigger] starts@[i] < a.num_states(),
    ensures
        r == exists|i: int, q0: int| 0 <= i < starts@.len() && b.is_initial(q0)
            && #[trigger] joint_run_to_final(*a, *b, starts@[i] as int, q0),
{
    let na = a.states.len();
    let nb = b.states.len();
    let mut seen: Vec<Vec<bool>> = Vec::new();
    for p in 0..na
        invariant
            seen@.len() == p,
            forall|i: int| 0 <= i < p ==> (#[trigger] seen@[i])@.len() == nb && count_false(seen@[i]@) == nb,
            forall|i: int, q: int| 0 <= i < p && 0 <= q < nb ==> !(#[trigger] seen@[i]@[q]),
    {
        seen.push(all_false(nb));
    }
    let mut queue: Vec<(usize, usize)> = Vec::new();
    let ghost mut origin: Seq<(int, int)> = Seq::empty();
    for i in 0..starts.len()
        invariant
            a.wf(),
            b.wf(),
            na == a.num_states(),
            nb == b.num_states(),
            forall|i: int| 0 <= i < starts@.len() ==> #[trigger] starts@[i] < a.num_states(),
            seen@.len() == na,
            forall|p: int| 0 <= p < na ==> (#[trigger] seen@[p])@.len() == nb,
            origin.len() == queue@.len(),
            forall|m: int| 0 <= m < queue@.len() ==> {
                &&& (#[trigger] queue@[m]).0 < na && queue@[m].1 < nb
                &&& pair_seen(seen@, queue@[m].0 as int, queue@[m].1 as int)
                &&& 0 <= origin[m].0 < starts@.len() && b.is_initial(origin[m].1)
                &&& joint_reaches(*a, *b, starts@[origin[m].0] as int, origin[m].1, queue@[m].0 as int, queue@[m].1 as int)
            },
            forall|p: int, q: int| #[trigger] pair_seen(seen@, p, q) ==> exists|m: int|
                0 <= m < queue@.len() && queue@[m] == (p as usize, q as usize),
            forall|m: int, j: int| 0 <= m < i && 0 <= j < b.initial_states@.len()
                ==> #[trigger] pair_seen(seen@, starts@[m] as int, #[trigger] b.initial_states@[j] as int),
    {
        let s = starts[i];
        for j in 0..b.initial_states.len()
            invariant
                a.wf(),
                b.wf(),
                na == a.num_states(),
                nb == b.num_states(),
                s == starts@[i as int],
                s < na,
                i < starts@.len(),
                seen@.len() == na,
                forall|p: int| 0 <= p < na ==> (#[trigger] seen@[p])@.len() == nb,
                origin.len() == queue@.len(),
                forall|m: int| 0 <= m < queue@.len() ==> {
                    &&& (#[trigger] queue@[m]).0 < na && queue@[m].1 < nb
                    &&& pair_seen(seen@, queue@[m].0 as int, queue@[m].1 as int)
                    &&& 0 <= origin[m].0 < starts@.len() && b.is_initial(origin[m].1)
                    &&& joint_reaches(*a, *b, starts@[origin[m].0] as int, origin[m].1, queue@[m].0 as int, queue@[m].1 as int)
                },
                forall|p: int, q: int| #[trigger] pair_seen(seen@, p, q) ==> exists|m: int|
                    0 <= m < queue@.len() && queue@[m] == (p as usize, q as usize),
                forall|m: int, j2: int| 0 <= m < i && 0 <= j2 < b.initial_states@.len()
                    ==> #[trigger] pair_seen(seen@, starts@[m] as int, #[trigger] b.initial_states@[j2] as int),
                forall|j2: int| 0 <= j2 < j ==> #[trigger] pair_seen(seen@, s as int, b.initial_states@[j2] as int),
        {
            let q0 = b.initial_states[j];
            proof {
                assert(b.is_initial(q0 as int));
            }
            if !seen[s][q0] {
                let ghost rows = seen@;
                let mut row: Vec<bool> = Vec::new();
                std::mem::swap(&mut row, &mut seen[s]);
                row.set(q0, true);
                seen.set(s, row);
                let ghost qprev = queue@;
                queue.push((s, q0));
                proof {
                    origin = origin.push((i as int, q0 as int));
                    assert(seen@ == rows.update(s as int, seen@[s as int]));
                    let ps = seq![s as int];
                    let qs = seq![q0 as int];
                    assert(is_joint_run(*a, *b, ps, qs));
                    assert(joint_reaches(*a, *b, s as int, q0 as int, s as int, q0 as int));
                    assert(starts@[i as int] == s);
                    assert forall|p: int, q: int| #[trigger] pair_seen(seen@, p, q) implies exists|m: int|
                        0 <= m < queue@.len() && queue@[m] == (p as usize, q as usize) by {
                        if p == s && q == q0 {
                            assert(queue@[queue@.len() - 1] == (p as usize, q as usize));
                        } else {
                            assert(pair_seen(rows, p, q));
                            let m = choose|m: int| 0 <= m < qprev.len() && qprev[m] == (p as usize, q as usize);
                            assert(queue@[m] == qprev[m]);
                        }
                    }
                    assert forall|m: int| 0 <= m < queue@.len() implies {
                        &&& (#[trigger] queue@[m]).0 < na && queue@[m].1 < nb
                        &&& pair_seen(seen@, queue@[m].0 as int, queue@[m].1 as int)
                        &&& 0 <= origin[m].0 < starts@.len() && b.is_initial(origin[m].1)
                        &&& joint_reaches(*a, *b, starts@[origin[m].0] as int, origin[m].1, queue@[m].0 as int, queue@[m].1 as int)
                    } by {
                        if m < qprev.len() {
                            assert(queue@[m] == qprev[m]);
                            assert(pair_seen(rows, queue@[m].0 as int, queue@[m].1 as int));
                        }
                    }
                    assert forall|m: int, j2: int| 0 <= m < i && 0 <= j2 < b.initial_states@.len()
                        implies #[trigger] pair_seen(seen@, starts@[m] as int, #[trigger] b.initial_states@[j2] as int) by {
                        assert(pair_seen(rows, starts@[m] as int, b.initial_states@[j2] as int));
                    }
                    assert forall|j2: int| 0 <= j2 < j + 1 implies #[trigger] pair_seen(seen@, s as int, b.initial_states@[j2] as int) by {
                        if j2 < j {
                            assert(pair_seen(rows, s as int, b.initial_states@[j2] as int));
                        }
                    }
                }
            }
        }
    }
    let mut head: usize = 0;
    while head < queue.len()
        invariant
            a.wf(),
            b.wf(),
            na == a.num_states(),
            nb == b.num_states(),
            forall|i: int| 0 <= i < starts@.len() ==> #[trigger] starts@[i] < a.num_states(),
            seen@.len() == na,
            forall|p: int| 0 <= p < na ==> (#[trigger] seen@[p])@.len() == nb,
            head <= queue@.len(),
            origin.len() == queue@.len(),
            forall|m: int| 0 <= m < queue@.len() ==> {
                &&& (#[trigger] queue@[m]).0 < na && queue@[m].1 < nb
                &&& pair_seen(seen@, queue@[m].0 as int, queue@[m].1 as int)
                &&& 0 <= origin[m].0 < starts@.len() && b.is_initial(origin[m].1)
                &&& joint_reaches(*a, *b, starts@[origin[m].0] as int, origin[m].1, queue@[m].0 as int, queue@[m].1 as int)
            },
            forall|p: int, q: int| #[trigger] pair_seen(seen@, p, q) ==> exists|m: int|
                0 <= m < queue@.len() && queue@[m] == (p as usize, q as usize),
            forall|m: int, j2: int| 0 <= m < starts@.len() && 0 <= j2 < b.initial_states@.len()
                ==> #[trigger] pair_seen(seen@, starts@[m] as int, #[trigger] b.initial_states@[j2] as int),
            forall|m: int, p2: int, q2: int| 0 <= m < head
                && #[trigger] joint_step(*a, *b, queue@[m].0 as int, queue@[m].1 as int, p2, q2)
                ==> !a.final_at(p2) && !b.final_at(q2) && pair_seen(seen@, p2, q2),
        decreases unseen_pairs(seen@), queue@.len() - head,
    {
        let (p, q) = queue[head];
        let ghost m0 = head as int;
        let ghost unseen_before = unseen_pairs(seen@);
        let ghost len_before = queue@.len();
        let ta = &a.states[p].transitions;
        let tb = &b.states[q].transitions;
        assert(ta@ == a.trans(p as int));
        assert(tb@ == b.trans(q as int));
        for ka in 0..ta.len()
            invariant
                a.wf(),
                b.wf(),
                na == a.num_states(),
                nb == b.num_states(),
                p < na,
                q < nb,
                ta@ == a.trans(p as int),
                tb@ == b.trans(q as int),
                (p, q) == queue@[m0],
                0 <= m0 < queue@.len(),
                m0 == head,
                seen@.len() == na,
                forall|p: int| 0 <= p < na ==> (#[trigger] seen@[p])@.len() == nb,
                origin.len() == queue@.len(),
                unseen_pairs(seen@) <= unseen_before,
                unseen_pairs(seen@) == unseen_before ==> queue@.len() == len_before,
                len_before <= queue@.len(),
                forall|m: int| 0 <= m < queue@.len() ==> {
                    &&& (#[trigger] queue@[m]).0 < na && queue@[m].1 < nb
                    &&& pair_seen(seen@, queue@[m].0 as int, queue@[m].1 as int)
                    &&& 0 <= origin[m].0 < starts@.len() && b.is_initial(origin[m].1)
                    &&& joint_reaches(*a, *b, starts@[origin[m].0] as int, origin[m].1, queue@[m].0 as int, queue@[m].1 as int)
                },
                forall|p: int, q: int| #[trigger] pair_seen(seen@, p, q) ==> exists|m: int|
                    0 <= m < queue@.len() && queue@[m] == (p as usize, q as usize),
                forall|m: int, j2: int| 0 <= m < starts@.len() && 0 <= j2 < b.initial_states@.len()
                    ==> #[trigger] pair_seen(seen@, starts@[m] as int, #[trigger] b.initial_states@[j2] as int),
                forall|m: int, p2: int, q2: int| 0 <= m < head
                    && #[trigger] joint_step(*a, *b, queue@[m].0 as int, queue@[m].1 as int, p2, q2)
                    ==> !a.final_at(p2) && !b.final_at(q2) && pair_seen(seen@, p2, q2),
                forall|k1: int, k2: int| 0 <= k1 < ka && 0 <= k2 < tb@.len()
                    && (#[trigger] a.trans(p as int)[k1]).label@ == (#[trigger] b.trans(q as int)[k2]).label@
                    ==> !a.final_at(a.trans(p as int)[k1].next_state as int) && !b.final_at(b.trans(q as int)[k2].next_state as int)
                        && pair_seen(seen@, a.trans(p as int)[k1].next_state as int, b.trans(q as int)[k2].next_state as int),
        {
            for kb in 0..tb.len()
                invariant
                    a.wf(),
                    b.wf(),
                    na == a.num_states(),
                    nb == b.num_states(),
                    p < na,
                    q < nb,
                    ka < ta@.len(),
                    ta@ == a.trans(p as int),
                    tb@ == b.trans(q as int),
                    (p, q) == queue@[m0],
                    0 <= m0 < queue@.len(),
                    m0 == head,
                    seen@.len() == na,
                    forall|p: int| 0 <= p < na ==> (#[trigger] seen@[p])@.len() == nb,
                    origin.len() == queue@.len(),
                    unseen_pairs(seen@) <= unseen_before,
                    unseen_pairs(seen@) == unseen_before ==> queue@.len() == len_before,
                    len_before <= queue@.len(),
                    forall|m: int| 0 <= m < queue@.len() ==> {
                        &&& (#[trigger] queue@[m]).0 < na && queue@[m].1 < nb
                        &&& pair_seen(seen@, queue@[m].0 as int, queue@[m].1 as int)
                        &&& 0 <= origin[m].0 < starts@.len() && b.is_initial(origin[m].1)
                        &&& joint_reaches(*a, *b, starts@[origin[m].0] as int, origin[m].1, queue@[m].0 as int, queue@[m].1 as int)
                    },
                    forall|p: int, q: int| #[trigger] pair_seen(seen@, p, q) ==> exists|m: int|
                        0 <= m < queue@.len() && queue@[m] == (p as usize, q as usize),
                    forall|m: int, j2: int| 0 <= m < starts@.len() && 0 <= j2 < b.initial_states@.len()
                        ==> #[trigger] pair_seen(seen@, starts@[m] as int, #[trigger] b.initial_states@[j2] as int),
                    forall|m: int, p2: int, q2: int| 0 <= m < head
                        && #[trigger] joint_step(*a, *b, queue@[m].0 as int, queue@[m].1 as int, p2, q2)
                        ==> !a.final_at(p2) && !b.final_at(q2) && pair_seen(seen@, p2, q2),
                    forall|k1: int, k2: int| 0 <= k1 < ka && 0 <= k2 < tb@.len()
                        && (#[trigger] a.trans(p as int)[k1]).label@ == (#[trigger] b.trans(q as int)[k2]).label@
                        ==> !a.final_at(a.trans(p as int)[k1].next_state as int) && !b.final_at(b.trans(q as int)[k2].next_state as int)
                            && pair_seen(seen@, a.trans(p as int)[k1].next_state as int, b.trans(q as int)[k2].next_state as int),
                    forall|k2: int| 0 <= k2 < kb
                        && (#[trigger] a.trans(p as int)[ka as int]).label@ == (#[trigger] b.trans(q as int)[k2]).label@
                        ==> !a.final_at(a.trans(p as int)[ka as int].next_state as int) && !b.final_at(b.trans(q as int)[k2].next_state as int)
                            && pair_seen(seen@, a.trans(p as int)[ka as int].next_state as int, b.trans(q as int)[k2].next_state as int),
            {
                if ta[ka].label == tb[kb].label {
                    let p2 = ta[ka].next_state;
                    let q2 = tb[kb].next_state;
                    assert(a.trans(p as int)[ka as int].next_state < na);
                    assert(b.trans(q as int)[kb as int].next_state < nb);
                    proof {
                        assert(joint_step(*a, *b, p as int, q as int, p2 as int, q2 as int));
                        let (oi, o1) = origin[m0];
                        let o0 = starts@[oi] as int;
                        let (ps, qs) = choose|ps: Seq<int>, qs: Seq<int>| #[trigger] is_joint_run(*a, *b, ps, qs)
                            && ps[0] == o0 && qs[0] == o1 && ps.last() == p as int && qs.last() == q as int;
                        lemma_extend_run(*a, *b, ps, qs, p2 as int, q2 as int);
                        let ps2 = ps.push(p2 as int);
                        let qs2 = qs.push(q2 as int);
                        assert(ps2[0] == o0 && qs2[0] == o1);
                        assert(joint_reaches(*a, *b, o0, o1, p2 as int, q2 as int));
                        if a.final_at(p2 as int) || b.final_at(q2 as int) {
                            assert(joint_run_to_final(*a, *b, o0, o1));
                        }
                    }
                    if a.states[p2].is_final || b.states[q2].is_final {
                        return true;
                    }
                    if !seen[p2][q2] {
                        let ghost rows = seen@;
                        let mut row: Vec<bool> = Vec::new();
                        std::mem::swap(&mut row, &mut seen[p2]);
                        row.set(q2, true);
                        seen.set(p2, row);
                        let ghost qprev = queue@;
                        queue.push((p2, q2));
                        proof {
                            lemma_unseen_pairs_update(rows, p2 as int, seen@[p2 as int], q2 as int);
                            assert(seen@ == rows.update(p2 as int, seen@[p2 as int]));
                            origin = origin.push(origin[m0]);
                            assert forall|pp: int, qq: int| #[trigger] pair_seen(seen@, pp, qq) implies exists|m: int|
                                0 <= m < queue@.len() && queue@[m] == (pp as usize, qq as usize) by {
                                if pp == p2 && qq == q2 {
                                    assert(queue@[queue@.len() - 1] == (pp as usize, qq as usize));
                                } else {
                                    assert(pair_seen(rows, pp, qq));
                                    let m = choose|m: int| 0 <= m < qprev.len() && qprev[m] == (pp as usize, qq as usize);
                                    assert(queue@[m] == qprev[m]);
                                }
                            }
                            assert forall|m: int| 0 <= m < queue@.len() implies {
                                &&& (#[trigger] queue@[m]).0 < na && queue@[m].1 < nb
                                &&& pair_seen(seen@, queue@[m].0 as int, queue@[m].1 as int)
                                &&& 0 <= origin[m].0 < starts@.len() && b.is_initial(origin[m].1)
                                &&& joint_reaches(*a, *b, starts@[origin[m].0] as int, origin[m].1, queue@[m].0 as int, queue@[m].1 as int)
                            } by {
                                if m < qprev.len() {
                                    assert(queue@[m] == qprev[m]);
                                    assert(pair_seen(rows, queue@[m].0 as int, queue@[m].1 as int));
                                }
                            }
                            assert forall|m: int, j2: int| 0 <= m < starts@.len() && 0 <= j2 < b.initial_states@.len()
                                implies #[trigger] pair_seen(seen@, starts@[m] as int, #[trigger] b.initial_states@[j2] as int) by {
                                assert(pair_seen(rows, starts@[m] as int, b.initial_states@[j2] as int));
                            }
                            assert forall|m: int, pp: int, qq: int| 0 <= m < head
                                && #[trigger] joint_step(*a, *b, queue@[m].0 as int, queue@[m].1 as int, pp, qq)
                                implies !a.final_at(pp) && !b.final_at(qq) && pair_seen(seen@, pp, qq) by {
                                assert(queue@[m] == qprev[m]);
                                assert(pair_seen(rows, pp, qq));
                            }
                            assert forall|k1: int, k2: int| 0 <= k1 < ka && 0 <= k2 < tb@.len()
                                && (#[trigger] a.trans(p as int)[k1]).label@ == (#[trigger] b.trans(q as int)[k2]).label@
                                implies !a.final_at(a.trans(p as int)[k1].next_state as int) && !b.final_at(b.trans(q as int)[k2].next_state as int)
                                    && pair_seen(seen@, a.trans(p as int)[k1].next_state as int, b.trans(q as int)[k2].next_state as int) by {
                                assert(pair_seen(rows, a.trans(p as int)[k1].next_state as int, b.trans(q as int)[k2].next_state as int));
                            }
                            assert forall|k2: int| 0 <= k2 < kb + 1
                                && (#[trigger] a.trans(p as int)[ka as int]).label@ == (#[trigger] b.trans(q as int)[k2]).label@
                                implies !a.final_at(a.trans(p as int)[ka as int].next_state as int) && !b.final_at(b.trans(q as int)[k2].next_state as int)
                                    && pair_seen(seen@, a.trans(p as int)[ka as int].next_state as int, b.trans(q as int)[k2].next_state as int) by {
                                if k2 < kb {
                                    assert(pair_seen(rows, a.trans(p as int)[ka as int].next_state as int, b.trans(q as int)[k2].next_state as int));
                                }
                            }
                        }
                    }
                }
            }
        }
        proof {
            assert forall|m: int, p2: int, q2: int| 0 <= m < head + 1
                && #[trigger] joint_step(*a, *b, queue@[m].0 as int, queue@[m].1 as int, p2, q2)
                implies !a.final_at(p2) && !b.final_at(q2) && pair_seen(seen@, p2, q2) by {
                if m == head {
                    let (ka, kb) = choose|ka: int, kb: int|
                        0 <= ka < a.trans(p as int).len() && 0 <= kb < b.trans(q as int).len()
                            && (#[trigger] a.trans(p as int)[ka]).label@ == (#[trigger] b.trans(q as int)[kb]).label@
                            && a.trans(p as int)[ka].next_state == p2 && b.trans(q as int)[kb].next_state == q2;
                }
            }
        }
        head = head + 1;
    }
    proof {
        assert forall|i: int, q0: int| 0 <= i < starts@.len() && b.is_initial(q0)
            implies !#[trigger] joint_run_to_final(*a, *b, starts@[i] as int, q0) by {
            let s = starts@[i] as int;
            if joint_run_to_final(*a, *b, s, q0) {
                let (ps, qs) = choose|ps: Seq<int>, qs: Seq<int>| #[trigger] is_joint_run(*a, *b, ps, qs) && ps.len() >= 2
                    && ps[0] == s && qs[0] == q0 && (a.final_at(ps.last()) || b.final_at(qs.last()));
                let mi = i;
                let ji = choose|ji: int| 0 <= ji < b.initial_states@.len() && #[trigger] b.initial_states@[ji] as int == q0;
                assert(pair_seen(seen@, starts@[mi] as int, b.initial_states@[ji] as int));
                assert forall|pp: int, qq: int, p2: int, q2: int| pair_seen(seen@, pp, qq) && #[trigger] joint_step(*a, *b, pp, qq, p2, q2)
                    implies !a.final_at(p2) && !b.final_at(q2) && pair_seen(seen@, p2, q2) by {
                    let m = choose|m: int| 0 <= m < queue@.len() && queue@[m] == (pp as usize, qq as usize);
                    assert(joint_step(*a, *b, queue@[m].0 as int, queue@[m].1 as int, p2, q2));
                }
                lemma_closed_runs(*a, *b, seen@, ps, qs);
            }
        }
    }
    false
}


/// `a` is the powerset automaton of the projection of `autom` on `var`
/// whose accepting states are chosen by `loc` (see `is_projection` and
/// `is_powerset`).
pub open spec fn projected_powerset(autom: NFAH, var: nat, loc: Option<usize>, a: NFA) -> bool {
    exists|e: EpsilonNFA, order: Seq<usize>, sets: Seq<Seq<bool>>|
        #[trigger] is_projection(autom, var, loc, e, order) && #[trigger] is_powerset(e, a, sets)
}

/// Some state that `a` reaches in exactly `i` transitions and some initial
/// state of `b` have a joint run to an accepting state.
pub open spec fn overlap_at(a: NFA, b: NFA, i: nat) -> bool {
    exists|p: int, q: int| a.reachable_in(p, i) && b.is_initial(q) && #[trigger] joint_run_to_final(a, b, p, q)
}

/// The largest `i` in `1..upto` at which `a` and `b` overlap, or `len`
/// when there is none.
pub open spec fn last_overlap(a: NFA, b: NFA, len: nat, upto: nat) -> nat
    decreases upto,
{
    if upto <= 1 {
        len
    } else if overlap_at(a, b, (upto - 1) as nat) {
        (upto - 1) as nat
    } else {
        last_overlap(a, b, len, (upto - 1) as nat)
    }
}

/// `last_overlap` is the largest overlap below `upto`, or `len` when there
/// is none.
proof fn lemma_last_overlap(a: NFA, b: NFA, len: nat, upto: nat)
    requires
        upto <= len,
    ensures
        forall|i: nat| 1 <= i < upto && #[trigger] overlap_at(a, b, i) ==> i <= last_overlap(a, b, len, upto),
        last_overlap(a, b, len, upto) != len ==> 1 <= last_overlap(a, b, len, upto) < upto
            && overlap_at(a, b, last_overlap(a, b, len, upto)),
        last_overlap(a, b, len, upto) == len ==> forall|i: nat| 1 <= i < upto ==> !#[trigger] overlap_at(a, b, i),
    decreases upto,
{
    if upto > 1 {
        lemma_last_overlap(a, b, len, (upto - 1) as nat);
    }
}

/// `l` is the length of the shortest word `a` accepts.
pub open spec fn shortest_accepted(a: NFA, l: nat) -> bool {
    a.accepts_in(l) && forall|m: nat| m < l ==> !#[trigger] a.accepts_in(m)
}

/// `v` is the skip value of state `loc`, given the automaton `b` of the
/// whole pattern projected on `var`: with `a` the automaton of the pattern
/// projected on `var` that accepts where `loc` is reached, `v` is 0 when
/// `a` accepts nothing, and otherwise the largest `i` below the length `l`
/// of the shortest word of `a` such that from a state `a` reaches in `i`
/// steps, `a` and `b` can read a same word to an accepting state of one of
/// them, or `l` when there is none.
pub open spec fn skip_value_given(autom: NFAH, var: nat, loc: usize, b: NFA, v: nat) -> bool {
    exists|a: NFA| #[trigger] projected_powerset(autom, var, Some(loc), a) && {
        if forall|n: nat| !#[trigger] a.accepts_in(n) {
            v == 0
        } else {
            exists|l: nat| #[trigger] shortest_accepted(a, l) && v == last_overlap(a, b, l, l)
        }
    }
}

/// `v` is the skip value of state `loc` for variable `var` (see
/// `skip_value_given`).
pub open spec fn skip_value_of(autom: NFAH, var: nat, loc: usize, v: nat) -> bool {
    exists|b: NFA| #[trigger] projected_powerset(autom, var, None, b) && skip_value_given(autom, var, loc, b, v)
}

/// The skip value of a state is the largest shift below the length `l`
/// of the shortest word of the pattern ending at that state at which a
/// state reached by that shift can still start a match of the whole
/// pattern, and `l` itself exactly when no such shift exists; 0 when the
/// state leads to no match.
pub proof fn lemma_skip_value_largest_overlap(autom: NFAH, var: nat, loc: usize, v: nat)
    requires
        skip_value_of(autom, var, loc, v),
    ensures
        exists|a: NFA, b: NFA|
            #![trigger projected_powerset(autom, var, Some(loc), a), projected_powerset(autom, var, None, b)]
            projected_powerset(autom, var, Some(loc), a) && projected_powerset(autom, var, None, b)
            && ((forall|n: nat| !#[trigger] a.accepts_in(n)) ==> v == 0)
            && forall|l: nat| #[trigger] shortest_accepted(a, l) ==> {
                &&& v <= l
                &&& forall|i: nat| 1 <= i < l && #[trigger] overlap_at(a, b, i) ==> i <= v
                &&& (v < l <==> exists|i: nat| 1 <= i < l && #[trigger] overlap_at(a, b, i))
                &&& v < l ==> 1 <= v && overlap_at(a, b, v)
            },
{
    let b = choose|b: NFA| #[trigger] projected_powerset(autom, var, None, b) && skip_value_given(autom, var, loc, b, v);
    let a = choose|a: NFA| #[trigger] projected_powerset(autom, var, Some(loc), a) && {
        if forall|n: nat| !#[trigger] a.accepts_in(n) {
            v == 0
        } else {
            exists|l: nat| #[trigger] shortest_accepted(a, l) && v == last_overlap(a, b, l, l)
        }
    };
    assert forall|l: nat| #[trigger] shortest_accepted(a, l) implies {
        &&& v <= l
        &&& forall|i: nat| 1 <= i < l && #[trigger] overlap_at(a, b, i) ==> i <= v
        &&& (v < l <==> exists|i: nat| 1 <= i < l && #[trigger] overlap_at(a, b, i))
        &&& v < l ==> 1 <= v && overlap_at(a, b, v)
    } by {
        assert(a.accepts_in(l));
        let l0 = choose|l0: nat| #[trigger] shortest_accepted(a, l0) && v == last_overlap(a, b, l0, l0);
        if l0 < l {
            assert(!a.accepts_in(l0));
        }
        if l < l0 {
            assert(!a.accepts_in(l));
        }
        assert(l0 == l);
        lemma_last_overlap(a, b, l, l);
        if exists|i: nat| 1 <= i < l && #[trigger] overlap_at(a, b, i) {
            let i = choose|i: nat| 1 <= i < l && #[trigger] overlap_at(a, b, i);
            assert(i <= v);
        }
    }
}

/// KMP-style skip values of an automaton over letters paired with
/// variables: for each variable and each state, how far the start of a
/// trial may move when a run of that trial is in that state.
pub struct KMPSkipValues {
    /// For each variable, the skip value of each state.
    pub skip_values: Vec<Vec<usize>>,
}

/// The skip value of `loc` (see `skip_value_given`).
fn skip_value_for(autom: &NFAH, b: &NFA, var: usize, loc: usize) -> (v: usize)
    requires
        autom.wf(),
        b.wf(),
    ensures
        skip_value_given(*autom, var as nat, loc, *b, v as nat),
{
    let e = autom.project_with_final(loc, var);
    let ghost order = choose|order: Seq<usize>| #[trigger] is_projection(*autom, var as nat, Some(loc), e, order);
    let a = e.to_nfa_powerset();
    let ghost sets = choose|sets: Seq<Seq<bool>>| #[trigger] is_powerset(e, a, sets);
    proof {
        assert(is_projection(*autom, var as nat, Some(loc), e, order) && is_powerset(e, a, sets));
        assert(projected_powerset(*autom, var as nat, Some(loc), a));
    }
    if a.is_empty() {
        return 0;
    }
    proof {
        let n = choose|n: nat| #[trigger] a.accepts_in(n);
        a.lemma_accepts_short(n);
        assert(a.num_states() == a.states.len());
    }
    let l = a.shortest_accepted_word_length();
    let mut value = l;
    let mut i: usize = 1;
    while i < l
        invariant
            a.wf(),
            b.wf(),
            1 <= i,
            l >= 1 ==> i <= l,
            l == 0 ==> i == 1,
            value == last_overlap(a, *b, l as nat, i as nat),
        decreases l - i,
    {
        let starts = a.states_reachable_in_exactly_n_steps(i);
        proof {
            assert forall|m: int| 0 <= m < starts@.len() implies #[trigger] starts@[m] < a.num_states() by {
                a.lemma_reachable_in_bounds(starts@[m] as int, i as nat);
            }
        }
        let found = overlaps(&a, b, &starts);
        proof {
            if found {
                let (m, q0) = choose|m: int, q0: int| 0 <= m < starts@.len() && b.is_initial(q0)
                    && #[trigger] joint_run_to_final(a, *b, starts@[m] as int, q0);
                assert(a.reachable_in(starts@[m] as int, i as nat));
                assert(overlap_at(a, *b, i as nat));
            }
            if overlap_at(a, *b, i as nat) {
                let (p, q) = choose|p: int, q: int| a.reachable_in(p, i as nat) && b.is_initial(q) && #[trigger] joint_run_to_final(a, *b, p, q);
                a.lemma_reachable_in_bounds(p, i as nat);
                assert(a.num_states() == a.states.len());
                assert(starts@.contains(p as usize));
                let m = choose|m: int| 0 <= m < starts@.len() && starts@[m] == p as usize;
                assert(starts@[m] as int == p);
                assert(joint_run_to_final(a, *b, starts@[m] as int, q));
            }
            assert(last_overlap(a, *b, l as nat, (i + 1) as nat) == if overlap_at(a, *b, i as nat) {
                i as nat
            } else {
                last_overlap(a, *b, l as nat, i as nat)
            });
        }
        if found {
            value = i;
        }
        i = i + 1;
    }
    proof {
        assert(shortest_accepted(a, l as nat));
        assert(i == l || l == 0);
        assert(value == last_overlap(a, *b, l as nat, i as nat));
        if l == 0 {
            assert(last_overlap(a, *b, 0, 1) == 0);
            assert(last_overlap(a, *b, 0, 0) == 0);
        }
        assert(!forall|n: nat| !#[trigger] a.accepts_in(n));
        if l == 0 {
            assert(value == 0);
        } else {
            assert(i == l);
            assert(value == last_overlap(a, *b, l as nat, l as nat));
        }
        assert(value == last_overlap(a, *b, l as nat, l as nat));
        assert(shortest_accepted(a, l as nat) && value == last_overlap(a, *b, l as nat, l as nat));
        assert(skip_value_given(*autom, var as nat, loc, *b, value as nat));
    }
    value
}

impl KMPSkipValues {
    /// Computes the skip value of every state for every variable (see
    /// `skip_value_of`).
    pub fn new(autom: &NFAH) -> (r: Self)
        requires
            autom.wf(),
        ensures
            r.skip_values@.len() == autom.dimensions,
            forall|var: int| 0 <= var < autom.dimensions ==> (#[trigger] r.skip_values@[var])@.len() == autom.num_states(),
            forall|var: int, loc: int| 0 <= var < autom.dimensions && 0 <= loc < autom.num_states()
                ==> skip_value_of(*autom, var as nat, loc as usize, #[trigger] r.skip_values@[var]@[loc] as nat),
    {
        let n = autom.states.len();
        let mut skip_values: Vec<Vec<usize>> = Vec::new();
        for var in 0..autom.dimensions
            invariant
                autom.wf(),
                n == autom.num_states(),
                skip_values@.len() == var,
                forall|v: int| 0 <= v < var ==> (#[trigger] skip_values@[v])@.len() == n,
                forall|v: int, loc: int| 0 <= v < var && 0 <= loc < n
                    ==> skip_value_of(*autom, v as nat, loc as usize, #[trigger] skip_values@[v]@[loc] as nat),
        {
            let e = autom.project(var);
            let ghost order = choose|order: Seq<usize>| #[trigger] is_projection(*autom, var as nat, None, e, order);
            let b = e.to_nfa_powerset();
            let ghost sets = choose|sets: Seq<Seq<bool>>| #[trigger] is_powerset(e, b, sets);
            proof {
                assert(is_projection(*autom, var as nat, None, e, order) && is_powerset(e, b, sets));
                assert(projected_powerset(*autom, var as nat, None, b));
            }
            let mut row: Vec<usize> = Vec::new();
            for loc in 0..n
                invariant
                    autom.wf(),
                    b.wf(),
                    n == autom.num_states(),
                    projected_powerset(*autom, var as nat, None, b),
                    row@.len() == loc,
                    forall|l: int| 0 <= l < loc ==> skip_value_given(*autom, var as nat, l as usize, b, #[trigger] row@[l] as nat),
            {
                let v = skip_value_for(autom, &b, var, loc);
                row.push(v);
                proof {
                    assert forall|l: int| 0 <= l < loc + 1 implies skip_value_given(*autom, var as nat, l as usize, b, #[trigger] row@[l] as nat) by {
                        if l == loc {
                            assert(row@[l] == v);
                        }
                    }
                }
            }
            skip_values.push(row);
            proof {
                assert forall|v: int, loc: int| 0 <= v < var + 1 && 0 <= loc < n
                    implies skip_value_of(*autom, v as nat, loc as usize, #[trigger] skip_values@[v]@[loc] as nat) by {
                    if v == var {
                        assert(skip_values@[v] == row);
                        assert(skip_value_given(*autom, var as nat, loc as usize, b, row@[loc] as nat));
                    }
                }
            }
        }
        KMPSkipValues { skip_values }
    }
}

} // verus!
