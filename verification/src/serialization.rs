use vstd::prelude::*;
use crate::automata::{Automata, EpsilonNFA, NFAH, Transition};
use crate::dfa::distinct;
use crate::nfah::is_projection;

verus! {

/// A state of an automaton as written in the JSON format: a number, and
/// whether the state is initial and final.
pub struct SerializedState {
    pub id: usize,
    pub is_initial: bool,
    pub is_final: bool,
}

/// A transition as written in the JSON format: the numbers of the states it
/// leaves and reaches, and its label (a letter and a variable).
pub struct SerializedTransition {
    pub from: usize,
    pub to: usize,
    pub label: (String, usize),
}

/// An automaton as written in the JSON format.
pub struct SerializedAutomata {
    pub dimensions: usize,
    pub states: Vec<SerializedState>,
    pub transitions: Vec<SerializedTransition>,
}

/// The state that the number `id` stands for: the last state listed with
/// that number.
pub open spec fn id_to_state(states: Seq<SerializedState>, id: int) -> Option<int>
    decreases states.len(),
{
    if states.len() == 0 {
        None
    } else if states.last().id == id {
        Some(states.len() - 1)
    } else {
        id_to_state(states.drop_last(), id)
    }
}

/// The numbers of the initial states, in the order they are listed.
pub open spec fn initial_indices(states: Seq<SerializedState>) -> Seq<usize>
    decreases states.len(),
{
    if states.len() == 0 {
        Seq::empty()
    } else if states.last().is_initial {
        initial_indices(states.drop_last()).push((states.len() - 1) as usize)
    } else {
        initial_indices(states.drop_last())
    }
}

/// Every number of a state, and every number used by a transition, names a
/// listed state, and every variable is one of the automaton's.
pub open spec fn well_numbered(ser: SerializedAutomata) -> bool {
    &&& forall|k: int| 0 <= k < ser.states@.len() ==> (#[trigger] ser.states@[k]).id < ser.states@.len()
    &&& forall|j: int| 0 <= j < ser.transitions@.len() ==> {
        &&& id_to_state(ser.states@, (#[trigger] ser.transitions@[j]).from as int) is Some
        &&& id_to_state(ser.states@, ser.transitions@[j].to as int) is Some
        &&& ser.transitions@[j].label.1 < ser.dimensions
    }
}

/// The transitions of the automaton read from `ts` that leave state `q`,
/// by label and target, in the order they are listed.
pub open spec fn transitions_from(states: Seq<SerializedState>, ts: Seq<SerializedTransition>, q: int) -> Seq<(Seq<char>, usize, int)>
    decreases ts.len(),
{
    if ts.len() == 0 {
        Seq::empty()
    } else {
        let rest = transitions_from(states, ts.drop_last(), q);
        let t = ts.last();
        if id_to_state(states, t.from as int) == Some(q) {
            rest.push((t.label.0@, t.label.1, id_to_state(states, t.to as int).unwrap()))
        } else {
            rest
        }
    }
}

/// The transitions of `a` from `q`, by label and target.
pub open spec fn transition_views(a: NFAH, q: int) -> Seq<(Seq<char>, usize, int)> {
    a.trans(q).map_values(|t: Transition<(String, usize)>| (t.label.0@, t.label.1, t.next_state as int))
}

/// The state that a number stands for, found from the end of the list.
fn find_state(states: &Vec<SerializedState>, id: usize) -> (r: Option<usize>)
    ensures
        match r {
            Some(k) => id_to_state(states@, id as int) == Some(k as int),
            None => id_to_state(states@, id as int) is None,
        },
{
    let mut k = states.len();
    assert(states@.subrange(0, k as int) =~= states@);
    while k > 0
        invariant
            k <= states@.len(),
            id_to_state(states@, id as int) == id_to_state(states@.subrange(0, k as int), id as int),
        decreases k,
    {
        proof {
            assert(states@.subrange(0, k as int).drop_last() =~= states@.subrange(0, k - 1));
        }
        if states[k - 1].id == id {
            return Some(k - 1);
        }
        k = k - 1;
    }
    proof {
        assert(states@.subrange(0, 0) =~= Seq::<SerializedState>::empty());
    }
    None
}

/// `a` is the automaton read from `ser`: the `k`-th listed state becomes
/// state `k`, initial and accepting as listed, and each transition leaves
/// and reaches the states its numbers stand for.
pub open spec fn read_back(ser: SerializedAutomata, a: NFAH) -> bool {
    &&& a.wf()
    &&& a.dimensions == ser.dimensions
    &&& a.num_states() == ser.states@.len()
    &&& a.initial_states@ == initial_indices(ser.states@)
    &&& forall|q: int| 0 <= q < a.num_states() ==> #[trigger] a.final_at(q) == ser.states@[q].is_final
    &&& forall|q: int| 0 <= q < a.num_states() ==> #[trigger] transition_views(a, q) == transitions_from(ser.states@, ser.transitions@, q)
}

/// Whether every state number of `ser` is below the number of states,
/// every transition leaves and reaches a listed state number, and every
/// transition label names a variable of the automaton.
pub fn is_well_numbered(ser: &SerializedAutomata) -> (r: bool)
    ensures
        r == well_numbered(*ser),
{
    let n = ser.states.len();
    for k in 0..n
        invariant
            n == ser.states@.len(),
            forall|m: int| 0 <= m < k ==> (#[trigger] ser.states@[m]).id < n,
    {
        if ser.states[k].id >= n {
            return false;
        }
    }
    for j in 0..ser.transitions.len()
        invariant
            n == ser.states@.len(),
            forall|m: int| 0 <= m < n ==> (#[trigger] ser.states@[m]).id < n,
            forall|m: int| 0 <= m < j ==> {
                &&& id_to_state(ser.states@, (#[trigger] ser.transitions@[m]).from as int) is Some
                &&& id_to_state(ser.states@, ser.transitions@[m].to as int) is Some
                &&& ser.transitions@[m].label.1 < ser.dimensions
            },
    {
        let t = &ser.transitions[j];
        if find_state(&ser.states, t.from).is_none() || find_state(&ser.states, t.to).is_none()
            || t.label.1 >= ser.dimensions {
            return false;
        }
    }
    true
}

/// Builds the automaton that `ser` describes: the `k`-th listed state
/// becomes state `k`, and each transition leaves and reaches the states its
/// numbers stand for. `ser` must be `well_numbered` (see `is_well_numbered`).
pub fn deserialize_nfa(ser: &SerializedAutomata) -> (a: NFAH)
    requires
        well_numbered(*ser),
    ensures
        read_back(*ser, a),
{
    let r = build_nfa(ser);
    r.unwrap()
}

/// The automaton that `ser` describes, or `None` when `ser` is not
/// `well_numbered`.
fn build_nfa(ser: &SerializedAutomata) -> (r: Option<NFAH>)
    ensures
        r is None <==> !well_numbered(*ser),
        r matches Some(a) ==> {
            &&& a.wf()
            &&& a.dimensions == ser.dimensions
            &&& a.num_states() == ser.states@.len()
            &&& a.initial_states@ == initial_indices(ser.states@)
            &&& forall|q: int| 0 <= q < a.num_states() ==> #[trigger] a.final_at(q) == ser.states@[q].is_final
            &&& forall|q: int| 0 <= q < a.num_states() ==> #[trigger] transition_views(a, q) == transitions_from(ser.states@, ser.transitions@, q)
        },
{
    let n = ser.states.len();
    for k in 0..n
        invariant
            n == ser.states@.len(),
            forall|m: int| 0 <= m < k ==> (#[trigger] ser.states@[m]).id < n,
    {
        if ser.states[k].id >= n {
            return None;
        }
    }
    let mut a: NFAH = Automata::new(ser.dimensions);
    for k in 0..n
        invariant
            n == ser.states@.len(),
            a.wf(),
            a.dimensions == ser.dimensions,
            a.num_states() == k,
            a.initial_states@ == initial_indices(ser.states@.subrange(0, k as int)),
            forall|q: int| 0 <= q < k ==> #[trigger] a.final_at(q) == ser.states@[q].is_final,
            forall|q: int| 0 <= q < k ==> (#[trigger] a.trans(q)).len() == 0,
    {
        let ghost pre = a;
        a.add_state(ser.states[k].is_initial, ser.states[k].is_final);
        proof {
            let sub = ser.states@.subrange(0, k + 1);
            assert(sub.drop_last() =~= ser.states@.subrange(0, k as int));
            assert forall|q: int| 0 <= q < k + 1 implies #[trigger] a.final_at(q) == ser.states@[q].is_final by {
                if q < k {
                    assert(a.states@[q] == pre.states@[q]);
                    assert(pre.final_at(q) == ser.states@[q].is_final);
                }
            }
            assert forall|q: int| 0 <= q < k + 1 implies (#[trigger] a.trans(q)).len() == 0 by {
                if q < k {
                    assert(a.states@[q] == pre.states@[q]);
                    assert(pre.trans(q).len() == 0);
                }
            }
        }
    }
    proof {
        assert(ser.states@.subrange(0, n as int) =~= ser.states@);
    }
    for j in 0..ser.transitions.len()
        invariant
            n == ser.states@.len(),
            forall|m: int| 0 <= m < n ==> (#[trigger] ser.states@[m]).id < n,
            a.wf(),
            a.dimensions == ser.dimensions,
            a.num_states() == n,
            a.initial_states@ == initial_indices(ser.states@),
            forall|q: int| 0 <= q < n ==> #[trigger] a.final_at(q) == ser.states@[q].is_final,
            forall|q: int| 0 <= q < n ==> #[trigger] transition_views(a, q) == transitions_from(ser.states@, ser.transitions@.subrange(0, j as int), q),
            forall|m: int| 0 <= m < j ==> {
                &&& id_to_state(ser.states@, (#[trigger] ser.transitions@[m]).from as int) is Some
                &&& id_to_state(ser.states@, ser.transitions@[m].to as int) is Some
                &&& ser.transitions@[m].label.1 < ser.dimensions
            },
    {
        let t = &ser.transitions[j];
        let from = find_state(&ser.states, t.from);
        let to = find_state(&ser.states, t.to);
        match (from, to) {
            (Some(f), Some(g)) => {
                if t.label.1 >= ser.dimensions {
                    return None;
                }
                proof {
                    lemma_id_to_state_bound(ser.states@, t.from as int);
                    lemma_id_to_state_bound(ser.states@, t.to as int);
                }
                let ghost pre = a;
                a.add_nfah_transition(f, t.label.0.clone(), t.label.1, g);
                proof {
                    let ts = ser.transitions@.subrange(0, j + 1);
                    assert(ts.drop_last() =~= ser.transitions@.subrange(0, j as int));
                    assert(ts.last() == ser.transitions@[j as int]);
                    assert forall|q: int| 0 <= q < n implies #[trigger] a.final_at(q) == ser.states@[q].is_final by {
                        assert(pre.final_at(q) == ser.states@[q].is_final);
                        if q != f {
                            assert(a.states@[q] == pre.states@[q]);
                        }
                    }
                    assert forall|q: int| 0 <= q < n implies #[trigger] transition_views(a, q) == transitions_from(ser.states@, ts, q) by {
                        if q == f {
                            assert(transition_views(a, q) =~= transition_views(pre, q).push((t.label.0@, t.label.1, g as int)));
                        } else {
                            assert(a.states@[q] == pre.states@[q]);
                            assert(transition_views(a, q) =~= transition_views(pre, q));
                        }
                    }
                }
            },
            _ => {
                return None;
            },
        }
    }
    proof {
        assert(ser.transitions@.subrange(0, ser.transitions@.len() as int) =~= ser.transitions@);
    }
    Some(a)
}

/// The state a number stands for is a listed state.
proof fn lemma_id_to_state_bound(states: Seq<SerializedState>, id: int)
    ensures
        id_to_state(states, id) matches Some(k) ==> 0 <= k < states.len(),
    decreases states.len(),
{
    if states.len() > 0 {
        lemma_id_to_state_bound(states.drop_last(), id);
    }
}


/// The character of the decimal digit `d`.
pub open spec fn digit_char(d: nat) -> char {
    (48 + d) as char
}

/// The decimal digits of `n`, most significant first, without leading
/// zeros (`0` for zero).
pub open spec fn decimal_text(n: usize) -> Seq<char>
    decreases n,
{
    if n < 10 {
        seq![digit_char(n as nat)]
    } else {
        decimal_text((n / 10) as usize).push(digit_char((n % 10) as nat))
    }
}

/// The decimal digits of `n` (`format!` with `{}`), as `decimal_text`
/// spells them.
#[verifier::external_body]
pub(crate) fn decimal(n: usize) -> (r: String)
    ensures
        r@ == decimal_text(n),
{
    format!("{}", n)
}

/// The number that a DOT text gives state `q`: its position in `order`.
pub open spec fn number_of(order: Seq<usize>, q: usize) -> usize {
    (choose|k: int| 0 <= k < order.len() && order[k] == q) as usize
}

/// The name of the `k`-th node.
pub open spec fn node_name(k: usize) -> Seq<char> {
    "state"@ + decimal_text(k)
}

/// The edges from the start node to the initial states `inits`.
pub open spec fn start_lines(inits: Seq<usize>, order: Seq<usize>) -> Seq<char>
    decreases inits.len(),
{
    if inits.len() == 0 {
        Seq::empty()
    } else {
        start_lines(inits.drop_last(), order) + "  __start__ -> "@ + node_name(number_of(order, inits.last())) + ";\n"@
    }
}

/// The lines of the first `n` nodes, a final state drawn as a double circle.
pub open spec fn node_lines(a: NFAH, order: Seq<usize>, n: nat) -> Seq<char>
    decreases n,
{
    if n == 0 {
        Seq::empty()
    } else {
        let k = (n - 1) as usize;
        let shape = if a.final_at(order[k as int] as int) { "doublecircle"@ } else { "circle"@ };
        node_lines(a, order, (n - 1) as nat) + "  "@ + node_name(k) + " [label=\"State "@ + decimal_text(k) + "\", shape="@
            + shape + "];\n"@
    }
}

/// The line of the `j`-th transition of node `k`, whose target is node `target`.
pub open spec fn edge_line(a: NFAH, order: Seq<usize>, k: usize, j: int, target: usize) -> Seq<char> {
    let t = a.trans(order[k as int] as int)[j];
    "  "@ + node_name(k) + " -> "@ + node_name(target) + " [label=\""@ + t.label.0@ + "/"@ + decimal_text(t.label.1) + "\"];\n"@
}

/// The lines of the first `m` transitions of node `k`.
pub open spec fn edges_of(a: NFAH, e: EpsilonNFA, order: Seq<usize>, k: usize, m: nat) -> Seq<char>
    decreases m,
{
    if m == 0 {
        Seq::empty()
    } else {
        edges_of(a, e, order, k, (m - 1) as nat) + edge_line(a, order, k, m - 1, e.trans(k as int)[m - 1].next_state)
    }
}

/// The lines of the transitions of the first `n` nodes.
pub open spec fn edge_lines(a: NFAH, e: EpsilonNFA, order: Seq<usize>, n: nat) -> Seq<char>
    decreases n,
{
    if n == 0 {
        Seq::empty()
    } else {
        let k = (n - 1) as usize;
        edge_lines(a, e, order, (n - 1) as nat) + edges_of(a, e, order, k, a.trans(order[k as int] as int).len())
    }
}

/// The DOT text of `a` whose reachable states are numbered by `order`, the
/// copy `e` giving the numbers of the transitions' targets.
pub open spec fn dot_text(a: NFAH, e: EpsilonNFA, order: Seq<usize>) -> Seq<char> {
    "digraph NFA {\n"@ + "  rankdir=LR;\n"@ + "  node [shape=circle];\n"@ + "  __start__ [shape=point];\n"@
        + start_lines(a.initial_states@, order) + node_lines(a, order, order.len()) + edge_lines(a, e, order, order.len())
        + "}\n"@
}

/// The position of `q` in `order`.
fn position_in(order: &Vec<usize>, q: usize) -> (r: usize)
    requires
        distinct(order@),
        order@.contains(q),
    ensures
        r == number_of(order@, q),
        r < order@.len(),
        order@[r as int] == q,
{
    let mut k: usize = 0;
    while k < order.len()
        invariant
            k <= order@.len(),
            forall|m: int| 0 <= m < k ==> order@[m] != q,
            order@.contains(q),
            distinct(order@),
        decreases order@.len() - k,
    {
        if order[k] == q {
            proof {
                let c = choose|c: int| 0 <= c < order@.len() && order@[c] == q;
                if c != k {
                    assert(order@[c] == order@[k as int]);
                }
                assert(c == k);
            }
            return k;
        }
        k = k + 1;
    }
    proof {
        let c = choose|c: int| 0 <= c < order@.len() && order@[c] == q;
    }
    0
}

/// The automaton in the DOT format of Graphviz: the states reachable from
/// an initial state are numbered breadth first from the initial states, an
/// invisible start node points to the initial states, final states are
/// drawn as double circles, and each transition is labelled by its letter
/// and variable.
#[verifier::rlimit(50)]
pub fn to_dot(automata: &NFAH) -> (r: String)
    requires
        automata.wf(),
    ensures
        exists|e: EpsilonNFA, order: Seq<usize>| #[trigger] is_projection(*automata, 0, None, e, order)
            && r@ == dot_text(*automata, e, order) && order.len() <= usize::MAX,
{
    let (e, order) = automata.project_with_map(0, None);
    let ghost a = *automata;
    let n = order.len();
    let mut dot = String::new();
    dot.push_str("digraph NFA {\n");
    dot.push_str("  rankdir=LR;\n");
    dot.push_str("  node [shape=circle];\n");
    dot.push_str("  __start__ [shape=point];\n");
    let ghost head = dot@;
    for i in 0..automata.initial_states.len()
        invariant
            a == *automata,
            a.wf(),
            is_projection(a, 0, None, e, order@),
            dot@ == head + start_lines(a.initial_states@.subrange(0, i as int), order@),
    {
        let q = automata.initial_states[i];
        proof {
            assert(a.is_initial(q as int));
            a.lemma_reachable_in_zero(q as int);
            assert(a.reachable_in(q as int, 0));
            assert(a.reachable(q as int));
            let k = choose|k: int| 0 <= k < order@.len() && #[trigger] order@[k] == q as int;
            assert(order@[k] == q);
            assert(order@.contains(q));
            assert(a.initial_states@.subrange(0, i + 1).drop_last() =~= a.initial_states@.subrange(0, i as int));
        }
        let id = position_in(&order, q);
        dot.push_str("  __start__ -> ");
        dot.push_str("state");
        let d = decimal(id);
        dot.push_str(d.as_str());
        dot.push_str(";\n");
        proof {
            assert(dot@ =~= head + start_lines(a.initial_states@.subrange(0, i + 1), order@));
        }
    }
    proof {
        assert(a.initial_states@.subrange(0, a.initial_states@.len() as int) =~= a.initial_states@);
    }
    let ghost after_start = dot@;
    for k in 0..n
        invariant
            a == *automata,
            a.wf(),
            n == order@.len(),
            is_projection(a, 0, None, e, order@),
            dot@ == after_start + node_lines(a, order@, k as nat),
    {
        let q = order[k];
        dot.push_str("  ");
        dot.push_str("state");
        let d = decimal(k);
        dot.push_str(d.as_str());
        dot.push_str(" [label=\"State ");
        dot.push_str(d.as_str());
        dot.push_str("\", shape=");
        if automata.states[q].is_final {
            dot.push_str("doublecircle");
        } else {
            dot.push_str("circle");
        }
        dot.push_str("];\n");
        proof {
            assert(dot@ =~= after_start + node_lines(a, order@, (k + 1) as nat));
        }
    }
    let ghost after_nodes = dot@;
    for k in 0..n
        invariant
            a == *automata,
            a.wf(),
            n == order@.len(),
            is_projection(a, 0, None, e, order@),
            dot@ == after_nodes + edge_lines(a, e, order@, k as nat),
    {
        let q = order[k];
        let ts = &automata.states[q].transitions;
        assert(ts@ == a.trans(q as int));
        let ghost before_edges = dot@;
        for j in 0..ts.len()
            invariant
                a == *automata,
                a.wf(),
                n == order@.len(),
                k < n,
                q == order@[k as int],
                ts@ == a.trans(q as int),
                is_projection(a, 0, None, e, order@),
                dot@ == before_edges + edges_of(a, e, order@, k, j as nat),
        {
            assert(e.trans(k as int).len() == a.trans(order@[k as int] as int).len());
            let target = e.states[k].transitions[j].next_state;
            dot.push_str("  ");
            dot.push_str("state");
            let dk = decimal(k);
            dot.push_str(dk.as_str());
            dot.push_str(" -> ");
            dot.push_str("state");
            let dt = decimal(target);
            dot.push_str(dt.as_str());
            dot.push_str(" [label=\"");
            dot.push_str(ts[j].label.0.as_str());
            dot.push_str("/");
            let dv = decimal(ts[j].label.1);
            dot.push_str(dv.as_str());
            dot.push_str("\"];\n");
            proof {
                assert(e.trans(k as int)[j as int].next_state == target);
                assert(dot@ =~= before_edges + edges_of(a, e, order@, k, (j + 1) as nat));
            }
        }
        proof {
            assert(dot@ =~= after_nodes + edge_lines(a, e, order@, (k + 1) as nat));
        }
    }
    dot.push_str("}\n");
    proof {
        assert(dot@ =~= dot_text(a, e, order@));
    }
    dot
}


/// `x` occurs in `s` as a run of consecutive characters.
pub open spec fn occurs_in(x: Seq<char>, s: Seq<char>) -> bool {
    exists|i: int| 0 <= i && i + x.len() <= s.len() && #[trigger] s.subrange(i, i + x.len()) == x
}

/// What occurs in a text occurs in it with more text after it.
proof fn lemma_occurs_before(x: Seq<char>, s: Seq<char>, t: Seq<char>)
    requires
        occurs_in(x, s),
    ensures
        occurs_in(x, s + t),
{
    let i = choose|i: int| 0 <= i && i + x.len() <= s.len() && #[trigger] s.subrange(i, i + x.len()) == x;
    assert((s + t).subrange(i, i + x.len()) =~= s.subrange(i, i + x.len()));
}

/// What occurs in a text occurs in it with more text before it.
proof fn lemma_occurs_after(x: Seq<char>, s: Seq<char>, t: Seq<char>)
    requires
        occurs_in(x, t),
    ensures
        occurs_in(x, s + t),
{
    let i = choose|i: int| 0 <= i && i + x.len() <= t.len() && #[trigger] t.subrange(i, i + x.len()) == x;
    assert((s + t).subrange(s.len() + i, s.len() + i + x.len()) =~= t.subrange(i, i + x.len()));
}

/// A text occurs in itself.
proof fn lemma_occurs_self(x: Seq<char>)
    ensures
        occurs_in(x, x),
{
    assert(x.subrange(0, 0 + x.len() as int) =~= x);
}

/// The lines of the first `m` transitions of node `k` hold the line of
/// each of them.
proof fn lemma_edges_of_hold(a: NFAH, e: EpsilonNFA, order: Seq<usize>, k: usize, m: nat, j: int)
    requires
        0 <= j < m,
    ensures
        occurs_in(edge_line(a, order, k, j, e.trans(k as int)[j].next_state), edges_of(a, e, order, k, m)),
    decreases m,
{
    let x = edge_line(a, order, k, j, e.trans(k as int)[j].next_state);
    if j == m - 1 {
        lemma_occurs_self(x);
        lemma_occurs_after(x, edges_of(a, e, order, k, (m - 1) as nat), x);
    } else {
        lemma_edges_of_hold(a, e, order, k, (m - 1) as nat, j);
        lemma_occurs_before(x, edges_of(a, e, order, k, (m - 1) as nat), edge_line(a, order, k, m - 1, e.trans(k as int)[m - 1].next_state));
    }
}

/// The lines of the transitions of the first `n` nodes hold those of node
/// `k < n`.
proof fn lemma_edge_lines_hold(a: NFAH, e: EpsilonNFA, order: Seq<usize>, n: nat, k: int, x: Seq<char>)
    requires
        0 <= k < n,
        n <= usize::MAX,
        occurs_in(x, edges_of(a, e, order, k as usize, a.trans(order[k] as int).len())),
    ensures
        occurs_in(x, edge_lines(a, e, order, n)),
    decreases n,
{
    let kk = (n - 1) as usize;
    let last = edges_of(a, e, order, kk, a.trans(order[kk as int] as int).len());
    if k == n - 1 {
        assert(kk == k as usize);
        lemma_occurs_after(x, edge_lines(a, e, order, (n - 1) as nat), last);
    } else {
        lemma_edge_lines_hold(a, e, order, (n - 1) as nat, k, x);
        lemma_occurs_before(x, edge_lines(a, e, order, (n - 1) as nat), last);
    }
}

/// The DOT text of an automaton draws every transition of a reachable
/// state: an edge between the numbers of its two states, labelled by the
/// transition's own letter and, in decimal, its own variable.
pub proof fn lemma_dot_shows_transitions(a: NFAH, e: EpsilonNFA, order: Seq<usize>, r: Seq<char>, q: int, j: int)
    requires
        is_projection(a, 0, None, e, order),
        r == dot_text(a, e, order),
        order.len() <= usize::MAX,
        a.reachable(q),
        0 <= j < a.trans(q).len(),
    ensures
        exists|k: int, kt: int|
            0 <= k < order.len() && order[k] == q && 0 <= kt < order.len() && order[kt] == a.trans(q)[j].next_state
                && #[trigger] occurs_in(
                "  "@ + "state"@ + decimal_text(k as usize) + " -> "@ + "state"@ + decimal_text(kt as usize) + " [label=\""@
                    + a.trans(q)[j].label.0@ + "/"@ + decimal_text(a.trans(q)[j].label.1) + "\"];\n"@,
                r,
            ),
{
    let k = choose|k: int| 0 <= k < order.len() && #[trigger] order[k] == q;
    assert(e.trans(k).len() == a.trans(q).len());
    let kt = e.trans(k)[j].next_state as int;
    assert(0 <= kt < order.len());
    let line = edge_line(a, order, k as usize, j, e.trans(k)[j].next_state);
    assert(line =~= "  "@ + "state"@ + decimal_text(k as usize) + " -> "@ + "state"@ + decimal_text(kt as usize) + " [label=\""@
        + a.trans(q)[j].label.0@ + "/"@ + decimal_text(a.trans(q)[j].label.1) + "\"];\n"@);
    lemma_edges_of_hold(a, e, order, k as usize, a.trans(q).len(), j);
    lemma_edge_lines_hold(a, e, order, order.len(), k, line);
    let front = "digraph NFA {\n"@ + "  rankdir=LR;\n"@ + "  node [shape=circle];\n"@ + "  __start__ [shape=point];\n"@
        + start_lines(a.initial_states@, order) + node_lines(a, order, order.len());
    lemma_occurs_after(line, front, edge_lines(a, e, order, order.len()));
    lemma_occurs_before(line, front + edge_lines(a, e, order, order.len()), "}\n"@);
}

/// The lines of the first `n` nodes hold the line of each of them.
proof fn lemma_node_lines_hold(a: NFAH, order: Seq<usize>, n: nat, k: int)
    requires
        0 <= k < n,
        n <= usize::MAX,
    ensures
        occurs_in(
            "  "@ + node_name(k as usize) + " [label=\"State "@ + decimal_text(k as usize) + "\", shape="@
                + (if a.final_at(order[k] as int) { "doublecircle"@ } else { "circle"@ }) + "];\n"@,
            node_lines(a, order, n),
        ),
    decreases n,
{
    let kk = (n - 1) as usize;
    let line = "  "@ + node_name(kk) + " [label=\"State "@ + decimal_text(kk) + "\", shape="@
        + (if a.final_at(order[kk as int] as int) { "doublecircle"@ } else { "circle"@ }) + "];\n"@;
    assert(node_lines(a, order, n) =~= node_lines(a, order, (n - 1) as nat) + line);
    if k == n - 1 {
        lemma_occurs_self(line);
        lemma_occurs_after(line, node_lines(a, order, (n - 1) as nat), line);
    } else {
        lemma_node_lines_hold(a, order, (n - 1) as nat, k);
        let x = "  "@ + node_name(k as usize) + " [label=\"State "@ + decimal_text(k as usize) + "\", shape="@
            + (if a.final_at(order[k] as int) { "doublecircle"@ } else { "circle"@ }) + "];\n"@;
        lemma_occurs_before(x, node_lines(a, order, (n - 1) as nat), line);
    }
}

/// The lines of the start node hold an edge to each of the states `inits`.
proof fn lemma_start_lines_hold(inits: Seq<usize>, order: Seq<usize>, i: int)
    requires
        0 <= i < inits.len(),
    ensures
        occurs_in("  __start__ -> "@ + node_name(number_of(order, inits[i])) + ";\n"@, start_lines(inits, order)),
    decreases inits.len(),
{
    let pre = inits.drop_last();
    let line = "  __start__ -> "@ + node_name(number_of(order, inits.last())) + ";\n"@;
    assert(start_lines(inits, order) == start_lines(pre, order) + line);
    if i == inits.len() - 1 {
        assert(inits[i] == inits.last());
        lemma_occurs_self(line);
        lemma_occurs_after(line, start_lines(pre, order), line);
    } else {
        lemma_start_lines_hold(pre, order, i);
        assert(pre[i] == inits[i]);
        lemma_occurs_before("  __start__ -> "@ + node_name(number_of(order, inits[i])) + ";\n"@, start_lines(pre, order), line);
    }
}

/// The DOT text of an automaton draws each reachable state as the node
/// numbered by its place in `order`, labelled by that number, as a double
/// circle exactly when the state is final, and draws an edge from the
/// start node to the node of each initial state.
pub proof fn lemma_dot_shows_states(a: NFAH, e: EpsilonNFA, order: Seq<usize>, r: Seq<char>)
    requires
        a.wf(),
        is_projection(a, 0, None, e, order),
        r == dot_text(a, e, order),
        order.len() <= usize::MAX,
    ensures
        forall|k: int| #![trigger order[k]] 0 <= k < order.len() ==> occurs_in(
            "  "@ + "state"@ + decimal_text(k as usize) + " [label=\"State "@ + decimal_text(k as usize) + "\", shape="@
                + (if a.final_at(order[k] as int) { "doublecircle"@ } else { "circle"@ }) + "];\n"@,
            r,
        ),
        forall|q: int| #[trigger] a.is_initial(q) ==> exists|k: int|
            0 <= k < order.len() && order[k] == q && #[trigger] occurs_in("  __start__ -> "@ + "state"@ + decimal_text(k as usize) + ";\n"@, r),
{
    let head = "digraph NFA {\n"@ + "  rankdir=LR;\n"@ + "  node [shape=circle];\n"@ + "  __start__ [shape=point];\n"@;
    let st = start_lines(a.initial_states@, order);
    let nl = node_lines(a, order, order.len());
    let el = edge_lines(a, e, order, order.len());
    let tail = "}\n"@;
    assert(r == head + st + nl + el + tail);
    assert forall|k: int| #![trigger order[k]] 0 <= k < order.len() implies occurs_in(
        "  "@ + "state"@ + decimal_text(k as usize) + " [label=\"State "@ + decimal_text(k as usize) + "\", shape="@
            + (if a.final_at(order[k] as int) { "doublecircle"@ } else { "circle"@ }) + "];\n"@,
        r,
    ) by {
        let x = "  "@ + node_name(k as usize) + " [label=\"State "@ + decimal_text(k as usize) + "\", shape="@
            + (if a.final_at(order[k] as int) { "doublecircle"@ } else { "circle"@ }) + "];\n"@;
        assert(x =~= "  "@ + "state"@ + decimal_text(k as usize) + " [label=\"State "@ + decimal_text(k as usize) + "\", shape="@
            + (if a.final_at(order[k] as int) { "doublecircle"@ } else { "circle"@ }) + "];\n"@);
        lemma_node_lines_hold(a, order, order.len(), k);
        lemma_occurs_after(x, head + st, nl);
        lemma_occurs_before(x, head + st + nl, el);
        lemma_occurs_before(x, head + st + nl + el, tail);
    }
    assert forall|q: int| #[trigger] a.is_initial(q) implies exists|k: int|
        0 <= k < order.len() && order[k] == q && #[trigger] occurs_in("  __start__ -> "@ + "state"@ + decimal_text(k as usize) + ";\n"@, r) by {
        let i = choose|i: int| 0 <= i < a.initial_states@.len() && #[trigger] a.initial_states@[i] as int == q;
        a.lemma_reachable_in_zero(q);
        assert(a.reachable_in(q, 0));
        assert(a.reachable(q));
        let k = choose|k: int| 0 <= k < order.len() && #[trigger] order[k] == q;
        let c = choose|c: int| 0 <= c < order.len() && order[c] == a.initial_states@[i];
        assert(order[c] == order[k]);
        assert(c == k);
        assert(number_of(order, a.initial_states@[i]) == k as usize);
        let x = "  __start__ -> "@ + node_name(k as usize) + ";\n"@;
        assert(x =~= "  __start__ -> "@ + "state"@ + decimal_text(k as usize) + ";\n"@);
        lemma_start_lines_hold(a.initial_states@, order, i);
        lemma_occurs_after(x, head, st);
        lemma_occurs_before(x, head + st, nl);
        lemma_occurs_before(x, head + st + nl, el);
        lemma_occurs_before(x, head + st + nl + el, tail);
    }
}

/// The value of a text of decimal digits.
pub open spec fn digits_value(s: Seq<char>) -> int
    decreases s.len(),
{
    if s.len() == 0 {
        0
    } else {
        digits_value(s.drop_last()) * 10 + (s.last() as int - 48)
    }
}

/// `decimal_text(n)` spells `n` in decimal: it is made of digits, its
/// value is `n`, and it has no leading zero.
pub proof fn lemma_decimal_text(n: usize)
    ensures
        decimal_text(n).len() >= 1,
        forall|i: int| 0 <= i < decimal_text(n).len() ==> 48 <= #[trigger] (decimal_text(n)[i] as int) <= 57,
        digits_value(decimal_text(n)) == n,
        n > 0 ==> decimal_text(n)[0] != '0',
    decreases n,
{
    if n < 10 {
        assert(decimal_text(n) == seq![digit_char(n as nat)]);
        assert(decimal_text(n).drop_last() =~= Seq::<char>::empty());
        assert(digit_char(n as nat) as int == 48 + n);
        assert(digits_value(Seq::<char>::empty()) == 0);
    } else {
        let m = (n / 10) as usize;
        lemma_decimal_text(m);
        let d = (n % 10) as nat;
        assert(decimal_text(n) == decimal_text(m).push(digit_char(d)));
        assert(decimal_text(n).drop_last() =~= decimal_text(m));
        assert(decimal_text(n)[0] == decimal_text(m)[0]);
        assert(m * 10 + d == n);
        assert(digit_char(d) as int == 48 + d);
        assert(decimal_text(n).last() == digit_char(d));
    }
}

/// `ser` lists the states of `a` reachable from an initial state, the
/// `k`-th numbered `k` and copying state `order[k]`, and for each of them
/// in turn its transitions in order, between the numbers of their states.
pub open spec fn serializes(a: NFAH, e: EpsilonNFA, order: Seq<usize>, ser: SerializedAutomata) -> bool {
    &&& ser.dimensions == a.dimensions
    &&& ser.states@.len() == order.len()
    &&& forall|k: int| 0 <= k < order.len() ==> {
        &&& (#[trigger] ser.states@[k]).id == k
        &&& ser.states@[k].is_initial == a.is_initial(order[k] as int)
        &&& ser.states@[k].is_final == a.final_at(order[k] as int)
    }
    &&& tuples_of(ser.transitions@)
        == listed_transitions(a, e, order, order.len())
}

/// A transition as the numbers of its states and its label.
pub open spec fn transition_tuple(t: SerializedTransition) -> (int, int, Seq<char>, usize) {
    (t.from as int, t.to as int, t.label.0@, t.label.1)
}

/// Each transition as the numbers of its states and its label.
pub open spec fn tuples_of(ts: Seq<SerializedTransition>) -> Seq<(int, int, Seq<char>, usize)> {
    ts.map_values(|t: SerializedTransition| transition_tuple(t))
}

/// The transitions of the first `n` numbered states, each as the numbers
/// of its states and its label.
pub open spec fn listed_transitions(a: NFAH, e: EpsilonNFA, order: Seq<usize>, n: nat) -> Seq<(int, int, Seq<char>, usize)>
    decreases n,
{
    if n == 0 {
        Seq::empty()
    } else {
        let k = n - 1;
        let ts = a.trans(order[k] as int);
        listed_transitions(a, e, order, (n - 1) as nat) + Seq::new(ts.len(), |j: int|
            (k, e.trans(k)[j].next_state as int, ts[j].label.0@, ts[j].label.1))
    }
}

/// The transitions from state `q` in a list of transitions given as the
/// numbers of their states and their labels, read as `transitions_from`
/// reads them.
pub open spec fn tuples_from(
    states: Seq<SerializedState>,
    ts: Seq<(int, int, Seq<char>, usize)>,
    q: int,
) -> Seq<(Seq<char>, usize, int)>
    decreases ts.len(),
{
    if ts.len() == 0 {
        Seq::empty()
    } else {
        let rest = tuples_from(states, ts.drop_last(), q);
        let t = ts.last();
        if id_to_state(states, t.0) == Some(q) {
            rest.push((t.2, t.3, id_to_state(states, t.1).unwrap()))
        } else {
            rest
        }
    }
}

/// The copy of the transitions of the `q`-th reachable state `order[q]` of
/// `a`: each label, with the number of the reachable state it leads to.
pub open spec fn copied_transitions(a: NFAH, e: EpsilonNFA, order: Seq<usize>, q: int) -> Seq<(Seq<char>, usize, int)> {
    let ts = a.trans(order[q] as int);
    Seq::new(ts.len(), |j: int| (ts[j].label.0@, ts[j].label.1, e.trans(q)[j].next_state as int))
}

/// The first `m` transitions of the `k`-th reachable state, as listed.
pub open spec fn listed_block(a: NFAH, e: EpsilonNFA, order: Seq<usize>, k: int, m: nat) -> Seq<(int, int, Seq<char>, usize)> {
    let ts = a.trans(order[k] as int);
    Seq::new(m, |j: int| (k, e.trans(k)[j].next_state as int, ts[j].label.0@, ts[j].label.1))
}

/// `transitions_from` reads a list of transitions through their numbers
/// and labels only.
proof fn lemma_transitions_from_tuples(states: Seq<SerializedState>, ts: Seq<SerializedTransition>, q: int)
    ensures
        transitions_from(states, ts, q) == tuples_from(states, tuples_of(ts), q),
    decreases ts.len(),
{
    if ts.len() > 0 {
        lemma_transitions_from_tuples(states, ts.drop_last(), q);
        assert(tuples_of(ts).drop_last() =~= tuples_of(ts.drop_last()));
    }
}

/// The transitions from `q` in two lists one after the other.
proof fn lemma_tuples_from_append(
    states: Seq<SerializedState>,
    x: Seq<(int, int, Seq<char>, usize)>,
    y: Seq<(int, int, Seq<char>, usize)>,
    q: int,
)
    ensures
        tuples_from(states, x + y, q) == tuples_from(states, x, q) + tuples_from(states, y, q),
    decreases y.len(),
{
    if y.len() == 0 {
        assert(x + y =~= x);
        assert(tuples_from(states, x, q) + tuples_from(states, y, q) =~= tuples_from(states, x, q));
    } else {
        lemma_tuples_from_append(states, x, y.drop_last(), q);
        assert((x + y).drop_last() =~= x + y.drop_last());
        assert((x + y).last() == y.last());
        let t = y.last();
        if id_to_state(states, t.0) == Some(q) {
            assert(tuples_from(states, x, q) + tuples_from(states, y, q) =~= (tuples_from(states, x, q) + tuples_from(
                states,
                y.drop_last(),
                q,
            )).push((t.2, t.3, id_to_state(states, t.1).unwrap())));
        }
    }
}

/// When each state is numbered by its place, a number names the state at
/// that place.
proof fn lemma_numbered_in_place(states: Seq<SerializedState>, m: int)
    requires
        forall|k: int| 0 <= k < states.len() ==> (#[trigger] states[k]).id == k,
    ensures
        0 <= m < states.len() ==> id_to_state(states, m) == Some(m),
        !(0 <= m < states.len()) ==> id_to_state(states, m) is None,
    decreases states.len(),
{
    if states.len() > 0 {
        let pre = states.drop_last();
        assert forall|k: int| 0 <= k < pre.len() implies (#[trigger] pre[k]).id == k by {
            assert(pre[k] == states[k]);
        }
        lemma_numbered_in_place(pre, m);
        assert(states.last().id == states.len() - 1);
    }
}

/// The transitions from `q` among the first `m` listed transitions of the
/// `k`-th reachable state.
proof fn lemma_block_from(a: NFAH, e: EpsilonNFA, order: Seq<usize>, states: Seq<SerializedState>, k: int, m: nat, q: int)
    requires
        a.wf(),
        is_projection(a, 0, None, e, order),
        states.len() == order.len(),
        forall|i: int| 0 <= i < states.len() ==> (#[trigger] states[i]).id == i,
        0 <= k < order.len(),
        m <= a.trans(order[k] as int).len(),
    ensures
        tuples_from(states, listed_block(a, e, order, k, m), q) == if k == q {
            copied_transitions(a, e, order, q).subrange(0, m as int)
        } else {
            Seq::empty()
        },
    decreases m,
{
    lemma_numbered_in_place(states, k);
    if m > 0 {
        lemma_block_from(a, e, order, states, k, (m - 1) as nat, q);
        let blk = listed_block(a, e, order, k, m);
        assert(blk.drop_last() =~= listed_block(a, e, order, k, (m - 1) as nat));
        let j = m - 1;
        let t = blk.last();
        assert(e.trans(k).len() == a.trans(order[k] as int).len());
        assert(e.trans(k)[j].next_state < e.num_states());
        lemma_numbered_in_place(states, t.1);
        if k == q {
            assert(copied_transitions(a, e, order, q).subrange(0, m as int) =~= copied_transitions(a, e, order, q).subrange(
                0,
                j,
            ).push((t.2, t.3, t.1)));
        }
    }
}

/// The transitions from `q` among those listed for the first `n`
/// reachable states.
proof fn lemma_listed_from(a: NFAH, e: EpsilonNFA, order: Seq<usize>, states: Seq<SerializedState>, n: nat, q: int)
    requires
        a.wf(),
        is_projection(a, 0, None, e, order),
        states.len() == order.len(),
        forall|i: int| 0 <= i < states.len() ==> (#[trigger] states[i]).id == i,
        n <= order.len(),
        0 <= q < order.len(),
    ensures
        tuples_from(states, listed_transitions(a, e, order, n), q) == if q < n {
            copied_transitions(a, e, order, q)
        } else {
            Seq::empty()
        },
    decreases n,
{
    if n > 0 {
        let k = n - 1;
        lemma_listed_from(a, e, order, states, (n - 1) as nat, q);
        let len = a.trans(order[k] as int).len();
        assert(listed_transitions(a, e, order, n) == listed_transitions(a, e, order, (n - 1) as nat) + listed_block(
            a,
            e,
            order,
            k,
            len,
        ));
        lemma_tuples_from_append(states, listed_transitions(a, e, order, (n - 1) as nat), listed_block(a, e, order, k, len), q);
        lemma_block_from(a, e, order, states, k, len, q);
        if k == q {
            assert(copied_transitions(a, e, order, q).subrange(0, len as int) =~= copied_transitions(a, e, order, q));
            assert(Seq::<(Seq<char>, usize, int)>::empty() + copied_transitions(a, e, order, q) =~= copied_transitions(a, e, order, q));
        } else if q < k {
            assert(copied_transitions(a, e, order, q) + Seq::<(Seq<char>, usize, int)>::empty() =~= copied_transitions(a, e, order, q));
        } else {
            assert(Seq::<(Seq<char>, usize, int)>::empty() + Seq::<(Seq<char>, usize, int)>::empty() =~= Seq::<(Seq<char>, usize, int)>::empty());
        }
    }
}

/// Every transition listed for the first `n` reachable states leaves one
/// of them, reaches a reachable state and names a variable of `a`.
proof fn lemma_listed_in_range(a: NFAH, e: EpsilonNFA, order: Seq<usize>, n: nat)
    requires
        a.wf(),
        is_projection(a, 0, None, e, order),
        n <= order.len(),
    ensures
        forall|i: int| 0 <= i < listed_transitions(a, e, order, n).len() ==> {
            let t = #[trigger] listed_transitions(a, e, order, n)[i];
            &&& 0 <= t.0 < n
            &&& 0 <= t.1 < order.len()
            &&& t.3 < a.dimensions
        },
    decreases n,
{
    if n > 0 {
        let k = n - 1;
        lemma_listed_in_range(a, e, order, (n - 1) as nat);
        let pre = listed_transitions(a, e, order, (n - 1) as nat);
        let ts = a.trans(order[k] as int);
        let blk = listed_block(a, e, order, k, ts.len());
        assert(listed_transitions(a, e, order, n) == pre + blk);
        assert forall|i: int| 0 <= i < listed_transitions(a, e, order, n).len() implies {
            let t = #[trigger] listed_transitions(a, e, order, n)[i];
            &&& 0 <= t.0 < n
            &&& 0 <= t.1 < order.len()
            &&& t.3 < a.dimensions
        } by {
            if i >= pre.len() {
                let j = i - pre.len();
                assert(listed_transitions(a, e, order, n)[i] == blk[j]);
                assert(e.trans(k).len() == ts.len());
                assert(e.trans(k)[j].next_state < e.num_states());
                assert(ts[j].label.1 < a.dimensions);
            } else {
                assert(listed_transitions(a, e, order, n)[i] == pre[i]);
            }
        }
    }
}

/// What `serialize_nfa` writes, `deserialize_nfa` takes and reads back: the
/// serialized form is well numbered, and the transitions it gives state
/// `q` are a copy of those of the `q`-th reachable state `order[q]` of the
/// automaton, each leading to the number of the reachable state it leads
/// to; so the automaton read back is the reachable part of the one written.
pub proof fn lemma_serialize_round_trip(a: NFAH, e: EpsilonNFA, order: Seq<usize>, ser: SerializedAutomata)
    requires
        a.wf(),
        is_projection(a, 0, None, e, order),
        serializes(a, e, order, ser),
    ensures
        well_numbered(ser),
        forall|q: int| 0 <= q < order.len() ==> #[trigger] transitions_from(ser.states@, ser.transitions@, q)
            == copied_transitions(a, e, order, q),
        forall|q: int, j: int| 0 <= q < order.len() && 0 <= j < copied_transitions(a, e, order, q).len()
            ==> order[#[trigger] copied_transitions(a, e, order, q)[j].2] == a.trans(order[q] as int)[j].next_state,
{
    let n = order.len();
    let states = ser.states@;
    assert forall|i: int| 0 <= i < states.len() implies (#[trigger] states[i]).id == i by {}
    lemma_listed_in_range(a, e, order, n);
    assert forall|j: int| 0 <= j < ser.transitions@.len() implies {
        &&& id_to_state(ser.states@, (#[trigger] ser.transitions@[j]).from as int) is Some
        &&& id_to_state(ser.states@, ser.transitions@[j].to as int) is Some
        &&& ser.transitions@[j].label.1 < ser.dimensions
    } by {
        let t = ser.transitions@[j];
        assert(tuples_of(ser.transitions@)[j] == transition_tuple(t));
        assert(listed_transitions(a, e, order, n)[j] == transition_tuple(t));
        lemma_numbered_in_place(states, t.from as int);
        lemma_numbered_in_place(states, t.to as int);
    }
    assert forall|q: int| 0 <= q < order.len() implies #[trigger] transitions_from(ser.states@, ser.transitions@, q)
        == copied_transitions(a, e, order, q) by {
        lemma_transitions_from_tuples(states, ser.transitions@, q);
        lemma_listed_from(a, e, order, states, n, q);
    }
    assert forall|q: int, j: int| 0 <= q < order.len() && 0 <= j < copied_transitions(a, e, order, q).len()
        implies order[#[trigger] copied_transitions(a, e, order, q)[j].2] == a.trans(order[q] as int)[j].next_state by {
        assert(e.trans(q).len() == a.trans(order[q] as int).len());
    }
}

/// Writes the automaton in the serialized form: the states reachable from
/// an initial state, numbered breadth first from the initial states, and
/// their transitions.
pub fn serialize_nfa(automata: &NFAH) -> (r: SerializedAutomata)
    requires
        automata.wf(),
    ensures
        exists|e: EpsilonNFA, order: Seq<usize>| #[trigger] is_projection(*automata, 0, None, e, order)
            && serializes(*automata, e, order, r),
        well_numbered(r),
{
    let (e, order) = automata.project_with_map(0, None);
    let ghost a = *automata;
    let n = order.len();
    let mut states: Vec<SerializedState> = Vec::new();
    for k in 0..n
        invariant
            a == *automata,
            n == order@.len(),
            is_projection(a, 0, None, e, order@),
            states@.len() == k,
            forall|m: int| 0 <= m < k ==> {
                &&& (#[trigger] states@[m]).id == m
                &&& states@[m].is_initial == a.is_initial(order@[m] as int)
                &&& states@[m].is_final == a.final_at(order@[m] as int)
            },
    {
        let q = order[k];
        let is_initial = position_of_initial(automata, q);
        states.push(SerializedState { id: k, is_initial, is_final: automata.states[q].is_final });
    }
    let mut transitions: Vec<SerializedTransition> = Vec::new();
    for k in 0..n
        invariant
            a == *automata,
            a.wf(),
            n == order@.len(),
            is_projection(a, 0, None, e, order@),
            tuples_of(transitions@)
                == listed_transitions(a, e, order@, k as nat),
    {
        let q = order[k];
        let ts = &automata.states[q].transitions;
        assert(ts@ == a.trans(q as int));
        let ghost before = tuples_of(transitions@);
        let ghost row = Seq::new(ts@.len(), |j: int|
            (k as int, e.trans(k as int)[j].next_state as int, ts@[j].label.0@, ts@[j].label.1));
        for j in 0..ts.len()
            invariant
                a == *automata,
                n == order@.len(),
                k < n,
                q == order@[k as int],
                ts@ == a.trans(q as int),
                is_projection(a, 0, None, e, order@),
                row == Seq::new(ts@.len(), |j: int|
                    (k as int, e.trans(k as int)[j].next_state as int, ts@[j].label.0@, ts@[j].label.1)),
                tuples_of(transitions@)
                    == before + row.subrange(0, j as int),
        {
            assert(e.trans(k as int).len() == a.trans(order@[k as int] as int).len());
            let target = e.states[k].transitions[j].next_state;
            let ghost pre = transitions@;
            let letter = ts[j].label.0.clone();
            transitions.push(SerializedTransition { from: k, to: target, label: (letter, ts[j].label.1) });
            proof {
                assert(target == e.trans(k as int)[j as int].next_state);
                assert(letter@ == ts@[j as int].label.0@);
                let last = transitions@[transitions@.len() - 1];
                assert(transition_tuple(last) == row[j as int]);
                assert(transitions@ == pre.push(last));
                assert(tuples_of(pre.push(last)) =~= tuples_of(pre).push(transition_tuple(last)));
                assert(tuples_of(transitions@)
                    =~= before + row.subrange(0, j + 1));
            }
        }
        proof {
            assert(row.subrange(0, ts@.len() as int) =~= row);
        }
    }
    let r = SerializedAutomata { dimensions: automata.dimensions, states, transitions };
    proof {
        assert(serializes(a, e, order@, r));
        lemma_serialize_round_trip(a, e, order@, r);
    }
    r
}

/// Whether `q` is an initial state.
fn position_of_initial(automata: &NFAH, q: usize) -> (r: bool)
    ensures
        r == automata.is_initial(q as int),
{
    for i in 0..automata.initial_states.len()
        invariant
            forall|m: int| 0 <= m < i ==> automata.initial_states@[m] as int != q as int,
    {
        if automata.initial_states[i] == q {
            assert(automata.initial_states@[i as int] as int == q as int);
            return true;
        }
    }
    false
}

/// A state is among the listed initial ones exactly when it is listed as
/// initial.
proof fn lemma_initial_indices(states: Seq<SerializedState>, q: int)
    requires
        states.len() <= usize::MAX,
    ensures
        (exists|i: int| 0 <= i < initial_indices(states).len() && #[trigger] initial_indices(states)[i] as int == q)
            <==> (0 <= q < states.len() && states[q].is_initial),
    decreases states.len(),
{
    if states.len() > 0 {
        let pre = states.drop_last();
        lemma_initial_indices(pre, q);
        let ii = initial_indices(states);
        let pi = initial_indices(pre);
        if states.last().is_initial {
            assert(ii == pi.push((states.len() - 1) as usize));
            if exists|i: int| 0 <= i < ii.len() && #[trigger] ii[i] as int == q {
                let i = choose|i: int| 0 <= i < ii.len() && #[trigger] ii[i] as int == q;
                if i < pi.len() {
                    assert(pi[i] as int == q);
                    assert(states[q] == pre[q]);
                }
            }
            if 0 <= q < states.len() && states[q].is_initial {
                if q < states.len() - 1 {
                    assert(pre[q] == states[q]);
                    let i = choose|i: int| 0 <= i < pi.len() && #[trigger] pi[i] as int == q;
                    assert(ii[i] as int == q);
                } else {
                    assert(ii[pi.len() as int] as int == q);
                }
            }
        } else {
            assert(ii == pi);
            if 0 <= q < states.len() - 1 {
                assert(pre[q] == states[q]);
            }
        }
    }
}

/// Writing an automaton and reading it back gives a copy of its reachable
/// part: state `k` of the automaton read back stands for the `k`-th
/// reachable state `order[k]`, is initial and accepting as it is, and has a
/// copy of its transitions, each leading to the number of the reachable
/// state it leads to.
pub proof fn lemma_read_back_reachable_part(a: NFAH, e: EpsilonNFA, order: Seq<usize>, ser: SerializedAutomata, b: NFAH)
    requires
        a.wf(),
        is_projection(a, 0, None, e, order),
        serializes(a, e, order, ser),
        read_back(ser, b),
        ser.states@.len() <= usize::MAX,
    ensures
        b.dimensions == a.dimensions,
        b.num_states() == order.len(),
        forall|k: int| 0 <= k < order.len() ==> (#[trigger] b.is_initial(k) <==> a.is_initial(order[k] as int)),
        forall|k: int| 0 <= k < order.len() ==> (#[trigger] b.final_at(k) == a.final_at(order[k] as int)),
        forall|k: int| 0 <= k < order.len() ==> #[trigger] transition_views(b, k) == copied_transitions(a, e, order, k),
        forall|k: int, j: int| 0 <= k < order.len() && 0 <= j < b.trans(k).len()
            ==> order[#[trigger] b.trans(k)[j].next_state as int] == a.trans(order[k] as int)[j].next_state,
{
    lemma_serialize_round_trip(a, e, order, ser);
    assert forall|k: int| 0 <= k < order.len() implies (#[trigger] b.is_initial(k) <==> a.is_initial(order[k] as int)) by {
        lemma_initial_indices(ser.states@, k);
        assert(ser.states@[k].is_initial == a.is_initial(order[k] as int));
    }
    assert forall|k: int, j: int| 0 <= k < order.len() && 0 <= j < b.trans(k).len()
        implies order[#[trigger] b.trans(k)[j].next_state as int] == a.trans(order[k] as int)[j].next_state by {
        assert(transition_views(b, k) == copied_transitions(a, e, order, k));
        assert(transition_views(b, k)[j] == copied_transitions(a, e, order, k)[j]);
    }
}

} // verus!
