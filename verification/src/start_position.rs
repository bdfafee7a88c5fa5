use vstd::prelude::*;
use core::cmp::Ordering;
use vstd::std_specs::cmp::PartialOrdSpecImpl;

verus! {

/// `a` comes before `b` in lexicographic order, looking from position `i`:
/// the first position where they differ decides, and a list that ends
/// first comes first.
pub open spec fn lex_less_from(a: Seq<usize>, b: Seq<usize>, i: int) -> bool
    decreases a.len() - i,
{
    if i >= a.len() {
        i < b.len()
    } else if i >= b.len() {
        false
    } else if a[i] < b[i] {
        true
    } else if a[i] > b[i] {
        false
    } else {
        lex_less_from(a, b, i + 1)
    }
}

/// `a` comes before `b` in lexicographic order.
pub open spec fn lex_less(a: Seq<usize>, b: Seq<usize>) -> bool {
    lex_less_from(a, b, 0)
}

/// The sum of a list of indices.
pub open spec fn index_sum(s: Seq<usize>) -> int
    decreases s.len(),
{
    if s.len() == 0 {
        0
    } else {
        index_sum(s.drop_last()) + s.last()
    }
}

/// The order of start positions: the smaller sum of indices comes first,
/// and lexicographic order breaks ties.
pub open spec fn position_less(a: Seq<usize>, b: Seq<usize>) -> bool {
    index_sum(a) < index_sum(b) || (index_sum(a) == index_sum(b) && lex_less(a, b))
}

/// A tuple of starting indices, one per variable, from which a matching is tried.
#[derive(Debug, Clone, PartialEq, Eq)]
pub struct StartPosition {
    /// The starting index in each dimension.
    pub start_indices: Vec<usize>,
}

/// Compares two lists of indices lexicographically.
pub fn lex_less_exec(a: &Vec<usize>, b: &Vec<usize>) -> (r: bool)
    ensures
        r == lex_less(a@, b@),
{
    let mut i: usize = 0;
    while i < a.len() && i < b.len()
        invariant
            i <= a@.len(),
            i <= b@.len(),
            lex_less(a@, b@) == lex_less_from(a@, b@, i as int),
        decreases a@.len() - i,
    {
        if a[i] < b[i] {
            return true;
        }
        if a[i] > b[i] {
            return false;
        }
        i = i + 1;
    }
    i < b.len()
}

proof fn lemma_index_sum_bound(s: Seq<usize>)
    ensures
        0 <= index_sum(s) <= s.len() * usize::MAX,
    decreases s.len(),
{
    if s.len() > 0 {
        lemma_index_sum_bound(s.drop_last());
        assert((s.len() - 1) * usize::MAX + usize::MAX == s.len() * usize::MAX) by (nonlinear_arith);
    }
}

/// The sum of a list of indices, computed without overflow.
pub fn sum_of_indices(s: &Vec<usize>) -> (r: u128)
    ensures
        r == index_sum(s@),
{
    let mut total: u128 = 0;
    for i in 0..s.len()
        invariant
            total == index_sum(s@.subrange(0, i as int)),
            i <= s@.len(),
    {
        proof {
            assert(s@.subrange(0, i + 1).drop_last() =~= s@.subrange(0, i as int));
            lemma_index_sum_bound(s@.subrange(0, i as int));
            assert(i * usize::MAX <= usize::MAX * usize::MAX) by (nonlinear_arith)
                requires
                    i <= usize::MAX,
            ;
            assert(usize::MAX * usize::MAX + usize::MAX < u128::MAX) by (nonlinear_arith)
                requires
                    usize::MAX <= u64::MAX,
            ;
        }
        total = total + s[i] as u128;
    }
    assert(s@.subrange(0, s@.len() as int) =~= s@);
    total
}

impl StartPosition {
    /// The start positions with one index moved forward by one, one for
    /// each index, in order.
    pub fn immediate_successors(&self) -> (r: Vec<StartPosition>)
        requires
            forall|i: int| 0 <= i < self.start_indices@.len() ==> self.start_indices@[i] < usize::MAX,
        ensures
            r@.len() == self.start_indices@.len(),
            forall|i: int| 0 <= i < r@.len() ==> #[trigger] r@[i].start_indices@ == self.start_indices@.update(
                i,
                (self.start_indices@[i] + 1) as usize,
            ),
    {
        let mut result: Vec<StartPosition> = Vec::new();
        for i in 0..self.start_indices.len()
            invariant
                forall|i: int| 0 <= i < self.start_indices@.len() ==> self.start_indices@[i] < usize::MAX,
                result@.len() == i,
                forall|k: int| 0 <= k < i ==> #[trigger] result@[k].start_indices@ == self.start_indices@.update(
                    k,
                    (self.start_indices@[k] + 1) as usize,
                ),
        {
            let mut new_start_indices: Vec<usize> = Vec::new();
            for j in 0..self.start_indices.len()
                invariant
                    0 <= i < self.start_indices@.len(),
                    self.start_indices@[i as int] < usize::MAX,
                    new_start_indices@ == self.start_indices@.update(i as int, (self.start_indices@[i as int] + 1) as usize).subrange(0, j as int),
            {
                if j == i {
                    new_start_indices.push(self.start_indices[j] + 1);
                } else {
                    new_start_indices.push(self.start_indices[j]);
                }
                assert(new_start_indices@ =~= self.start_indices@.update(i as int, (self.start_indices@[i as int] + 1) as usize).subrange(0, j + 1));
            }
            assert(new_start_indices@ =~= self.start_indices@.update(i as int, (self.start_indices@[i as int] + 1) as usize));
            result.push(StartPosition { start_indices: new_start_indices });
        }
        result
    }
}

impl PartialOrd for StartPosition {
    fn partial_cmp(&self, other: &Self) -> (r: Option<Ordering>) {
        let self_sum = sum_of_indices(&self.start_indices);
        let other_sum = sum_of_indices(&other.start_indices);
        if self_sum < other_sum {
            Some(Ordering::Less)
        } else if self_sum > other_sum {
            Some(Ordering::Greater)
        } else if lex_less_exec(&self.start_indices, &other.start_indices) {
            Some(Ordering::Less)
        } else if lex_less_exec(&other.start_indices, &self.start_indices) {
            Some(Ordering::Greater)
        } else {
            Some(Ordering::Equal)
        }
    }
}

impl PartialOrdSpecImpl for StartPosition {
    open spec fn obeys_partial_cmp_spec() -> bool {
        true
    }

    open spec fn partial_cmp_spec(&self, other: &Self) -> Option<Ordering> {
        if index_sum(self.start_indices@) < index_sum(other.start_indices@) {
            Some(Ordering::Less)
        } else if index_sum(self.start_indices@) > index_sum(other.start_indices@) {
            Some(Ordering::Greater)
        } else if lex_less(self.start_indices@, other.start_indices@) {
            Some(Ordering::Less)
        } else if lex_less(other.start_indices@, self.start_indices@) {
            Some(Ordering::Greater)
        } else {
            Some(Ordering::Equal)
        }
    }
}


/// No list comes before itself.
pub proof fn lemma_lex_irreflexive(a: Seq<usize>, i: int)
    requires
        0 <= i,
    ensures
        !lex_less_from(a, a, i),
    decreases a.len() - i,
{
    if i < a.len() {
        lemma_lex_irreflexive(a, i + 1);
    }
}

/// Lexicographic order is transitive.
pub proof fn lemma_lex_transitive(a: Seq<usize>, b: Seq<usize>, c: Seq<usize>, i: int)
    requires
        0 <= i,
        lex_less_from(a, b, i),
        lex_less_from(b, c, i),
    ensures
        lex_less_from(a, c, i),
    decreases a.len() - i,
{
    if i < a.len() && i < b.len() && i < c.len() && a[i] == b[i] && b[i] == c[i] {
        lemma_lex_transitive(a, b, c, i + 1);
    }
}

/// Two lists that do not come before each other from position `i` agree
/// from position `i` on.
pub proof fn lemma_lex_total(a: Seq<usize>, b: Seq<usize>, i: int)
    requires
        0 <= i <= a.len(),
        i <= b.len(),
        !lex_less_from(a, b, i),
        !lex_less_from(b, a, i),
    ensures
        a.len() == b.len(),
        forall|j: int| i <= j < a.len() ==> a[j] == b[j],
    decreases a.len() - i,
{
    if i < a.len() && i < b.len() {
        lemma_lex_total(a, b, i + 1);
    }
}

/// Lexicographic order is total on different lists.
pub proof fn lemma_lex_trichotomy(a: Seq<usize>, b: Seq<usize>)
    ensures
        a != b ==> lex_less(a, b) || lex_less(b, a),
        !(lex_less(a, b) && lex_less(b, a)),
{
    if !lex_less(a, b) && !lex_less(b, a) {
        lemma_lex_total(a, b, 0);
        assert(a =~= b);
    }
    if lex_less(a, b) && lex_less(b, a) {
        lemma_lex_transitive(a, b, a, 0);
        lemma_lex_irreflexive(a, 0);
    }
}

/// Moving one index forward gives a list that comes after.
pub proof fn lemma_lex_increment(a: Seq<usize>, k: int)
    requires
        0 <= k < a.len(),
        a[k] < usize::MAX,
    ensures
        lex_less(a, a.update(k, (a[k] + 1) as usize)),
{
    let b = a.update(k, (a[k] + 1) as usize);
    lemma_lex_increment_from(a, b, k, k);
}

proof fn lemma_lex_increment_from(a: Seq<usize>, b: Seq<usize>, k: int, i: int)
    requires
        0 <= k < a.len(),
        a[k] < usize::MAX,
        b == a.update(k, (a[k] + 1) as usize),
        0 <= i <= k,
    ensures
        lex_less_from(a, b, k - i),
    decreases i,
{
    if i > 0 {
        lemma_lex_increment_from(a, b, k, i - 1);
    }
}

/// The start positions of a queue, by their indices.
pub open spec fn queue_view(q: Seq<StartPosition>) -> Seq<Seq<usize>> {
    q.map_values(|p: StartPosition| p.start_indices@)
}

/// Each element comes strictly before the next.
pub open spec fn sorted_strict(s: Seq<Seq<usize>>) -> bool {
    forall|i: int, j: int| 0 <= i < j < s.len() ==> lex_less(s[i], s[j])
}

/// Copies a start position.
pub fn copy_start_position(p: &StartPosition) -> (r: StartPosition)
    ensures
        r.start_indices@ == p.start_indices@,
{
    let mut v: Vec<usize> = Vec::new();
    for i in 0..p.start_indices.len()
        invariant
            v@ == p.start_indices@.subrange(0, i as int),
    {
        v.push(p.start_indices[i]);
        assert(v@ =~= p.start_indices@.subrange(0, i + 1));
    }
    assert(v@ =~= p.start_indices@);
    StartPosition { start_indices: v }
}

/// Adds a start position to a queue kept in increasing lexicographic order
/// without repetition; a position already there is not added again.
pub fn insert_position(q: &mut Vec<StartPosition>, p: StartPosition)
    requires
        sorted_strict(queue_view(old(q)@)),
    ensures
        sorted_strict(queue_view(final(q)@)),
        forall|x: Seq<usize>| #[trigger] queue_view(final(q)@).contains(x) <==> (queue_view(old(q)@).contains(x)
            || x == p.start_indices@),
{
    let ghost qv = queue_view(q@);
    let mut i: usize = 0;
    while i < q.len() && lex_less_exec(&q[i].start_indices, &p.start_indices)
        invariant
            i <= q@.len(),
            qv == queue_view(q@),
            sorted_strict(qv),
            forall|k: int| 0 <= k < i ==> lex_less(#[trigger] qv[k], p.start_indices@),
        decreases q@.len() - i,
    {
        i = i + 1;
    }
    if i < q.len() && q[i].start_indices == p.start_indices {
        proof {
            assert(qv[i as int] == p.start_indices@);
            assert(qv.contains(p.start_indices@));
        }
        return;
    }
    proof {
        if i < qv.len() {
            lemma_lex_trichotomy(qv[i as int], p.start_indices@);
            assert(qv[i as int] != p.start_indices@);
            assert(lex_less(p.start_indices@, qv[i as int]));
        }
    }
    let ghost pv = p.start_indices@;
    q.insert(i, p);
    proof {
        let nv = queue_view(q@);
        assert(nv =~= qv.insert(i as int, pv));
        assert forall|a: int, b: int| 0 <= a < b < nv.len() implies lex_less(nv[a], nv[b]) by {
            if b < i {
            } else if a < i && b == i {
            } else if a < i {
                assert(nv[b] == qv[b - 1]);
                lemma_lex_transitive(nv[a], pv, qv[i as int], 0);
                if b - 1 > i {
                    assert(lex_less(qv[i as int], qv[b - 1]));
                    lemma_lex_transitive(nv[a], qv[i as int], qv[b - 1], 0);
                }
            } else if a == i {
                assert(nv[b] == qv[b - 1]);
                if b - 1 > i {
                    assert(lex_less(qv[i as int], qv[b - 1]));
                    lemma_lex_transitive(pv, qv[i as int], qv[b - 1], 0);
                }
            } else {
                assert(nv[a] == qv[a - 1] && nv[b] == qv[b - 1]);
            }
        }
        assert forall|x: Seq<usize>| #[trigger] nv.contains(x) <==> (qv.contains(x) || x == pv) by {
            if nv.contains(x) {
                let k = choose|k: int| 0 <= k < nv.len() && nv[k] == x;
                if k < i {
                    assert(qv[k] == x);
                } else if k > i {
                    assert(qv[k - 1] == x);
                }
            }
            if qv.contains(x) {
                let k = choose|k: int| 0 <= k < qv.len() && qv[k] == x;
                if k < i {
                    assert(nv[k] == x);
                } else {
                    assert(nv[k + 1] == x);
                }
            }
            if x == pv {
                assert(nv[i as int] == x);
            }
        }
    }
}


/// `b` to the power `e`.
pub open spec fn power(b: nat, e: nat) -> nat
    decreases e,
{
    if e == 0 {
        1
    } else {
        b * power(b, (e - 1) as nat)
    }
}

/// The rank of a list of digits below `b` from position `i` on, most
/// significant digit first.
pub open spec fn rank_from(p: Seq<usize>, i: int, b: nat) -> nat
    decreases p.len() - i,
{
    if i >= p.len() || i < 0 {
        0
    } else {
        (p[i] as nat) * power(b, (p.len() - 1 - i) as nat) + rank_from(p, i + 1, b)
    }
}

/// Powers of a positive base are positive.
pub proof fn lemma_power_positive(b: nat, e: nat)
    requires
        b >= 1,
    ensures
        power(b, e) >= 1,
    decreases e,
{
    if e > 0 {
        lemma_power_positive(b, (e - 1) as nat);
        let w = power(b, (e - 1) as nat);
        assert(b * w >= 1) by (nonlinear_arith)
            requires
                b >= 1,
                w >= 1,
        ;
    }
}

/// The rank of digits below `b` is below `b` to the number of digits.
pub proof fn lemma_rank_bound(p: Seq<usize>, i: int, b: nat)
    requires
        0 <= i <= p.len(),
        b >= 1,
        forall|j: int| 0 <= j < p.len() ==> p[j] < b,
    ensures
        rank_from(p, i, b) < power(b, (p.len() - i) as nat),
    decreases p.len() - i,
{
    if i < p.len() {
        lemma_rank_bound(p, i + 1, b);
        let w = power(b, (p.len() - 1 - i) as nat);
        let r = rank_from(p, i + 1, b);
        let d = p[i] as nat;
        assert(((p.len() - i) as nat - 1) as nat == (p.len() - 1 - i) as nat);
        assert(power(b, (p.len() - i) as nat) == b * w);
        assert(d * w + r < b * w) by (nonlinear_arith)
            requires
                d < b,
                r < w,
        ;
    }
}

/// Lexicographic order of digits below `b` is the order of their ranks.
pub proof fn lemma_rank_lex(p: Seq<usize>, q: Seq<usize>, i: int, b: nat)
    requires
        0 <= i,
        p.len() == q.len(),
        b >= 1,
        forall|j: int| 0 <= j < p.len() ==> p[j] < b,
        forall|j: int| 0 <= j < q.len() ==> q[j] < b,
        lex_less_from(p, q, i),
    ensures
        rank_from(p, i, b) < rank_from(q, i, b),
    decreases p.len() - i,
{
    if i < p.len() {
        if p[i] == q[i] {
            lemma_rank_lex(p, q, i + 1, b);
        } else {
            lemma_rank_bound(p, i + 1, b);
            let w = power(b, (p.len() - 1 - i) as nat);
            let rp = rank_from(p, i + 1, b);
            let rq = rank_from(q, i + 1, b);
            let dp = p[i] as nat;
            let dq = q[i] as nat;
            assert(dp * w + rp < dq * w + rq) by (nonlinear_arith)
                requires
                    dp < dq,
                    rp < w,
            ;
        }
    }
}


/// Each element comes strictly before the next in the order of start
/// positions (`position_less`).
pub open spec fn sorted_positions(s: Seq<Seq<usize>>) -> bool {
    forall|i: int, j: int| 0 <= i < j < s.len() ==> position_less(s[i], s[j])
}

/// Compares two start positions: the smaller sum of indices comes first,
/// and lexicographic order breaks ties.
pub fn position_less_exec(a: &Vec<usize>, b: &Vec<usize>) -> (r: bool)
    ensures
        r == position_less(a@, b@),
{
    let sa = sum_of_indices(a);
    let sb = sum_of_indices(b);
    sa < sb || (sa == sb && lex_less_exec(a, b))
}

/// The order of start positions is transitive.
pub proof fn lemma_position_transitive(a: Seq<usize>, b: Seq<usize>, c: Seq<usize>)
    requires
        position_less(a, b),
        position_less(b, c),
    ensures
        position_less(a, c),
{
    if index_sum(a) == index_sum(b) && index_sum(b) == index_sum(c) {
        lemma_lex_transitive(a, b, c, 0);
    }
}

/// The order of start positions is total on different positions, and no
/// two positions come before each other.
pub proof fn lemma_position_trichotomy(a: Seq<usize>, b: Seq<usize>)
    ensures
        a != b ==> position_less(a, b) || position_less(b, a),
        !(position_less(a, b) && position_less(b, a)),
{
    lemma_lex_trichotomy(a, b);
}

/// Replacing an index changes the sum by the difference.
pub proof fn lemma_index_sum_update(a: Seq<usize>, k: int, v: usize)
    requires
        0 <= k < a.len(),
    ensures
        index_sum(a.update(k, v)) == index_sum(a) - a[k] + v,
    decreases a.len(),
{
    let u = a.update(k, v);
    if k == a.len() - 1 {
        assert(u.drop_last() =~= a.drop_last());
    } else {
        assert(u.drop_last() =~= a.drop_last().update(k, v));
        lemma_index_sum_update(a.drop_last(), k, v);
    }
}

/// Moving one index forward gives a position that comes after.
pub proof fn lemma_position_increment(a: Seq<usize>, k: int)
    requires
        0 <= k < a.len(),
        a[k] < usize::MAX,
    ensures
        position_less(a, a.update(k, (a[k] + 1) as usize)),
{
    lemma_index_sum_update(a, k, (a[k] + 1) as usize);
}

/// Adds a start position to a queue kept in the order of start positions
/// without repetition; a position already there is not added again.
pub fn insert_start_position(q: &mut Vec<StartPosition>, p: StartPosition)
    requires
        sorted_positions(queue_view(old(q)@)),
    ensures
        sorted_positions(queue_view(final(q)@)),
        forall|x: Seq<usize>| #[trigger] queue_view(final(q)@).contains(x) <==> (queue_view(old(q)@).contains(x)
            || x == p.start_indices@),
{
    let ghost qv = queue_view(q@);
    let mut i: usize = 0;
    while i < q.len() && position_less_exec(&q[i].start_indices, &p.start_indices)
        invariant
            i <= q@.len(),
            qv == queue_view(q@),
            sorted_positions(qv),
            forall|k: int| 0 <= k < i ==> position_less(#[trigger] qv[k], p.start_indices@),
        decreases q@.len() - i,
    {
        i = i + 1;
    }
    if i < q.len() && q[i].start_indices == p.start_indices {
        proof {
            assert(qv[i as int] == p.start_indices@);
            assert(qv.contains(p.start_indices@));
        }
        return;
    }
    proof {
        if i < qv.len() {
            lemma_position_trichotomy(qv[i as int], p.start_indices@);
            assert(qv[i as int] != p.start_indices@);
            assert(position_less(p.start_indices@, qv[i as int]));
        }
    }
    let ghost pv = p.start_indices@;
    q.insert(i, p);
    proof {
        let nv = queue_view(q@);
        assert(nv =~= qv.insert(i as int, pv));
        assert forall|a: int, b: int| 0 <= a < b < nv.len() implies position_less(nv[a], nv[b]) by {
            if b < i {
            } else if a < i && b == i {
            } else if a < i {
                assert(nv[b] == qv[b - 1]);
                lemma_position_transitive(nv[a], pv, qv[i as int]);
                if b - 1 > i {
                    assert(position_less(qv[i as int], qv[b - 1]));
                    lemma_position_transitive(nv[a], qv[i as int], qv[b - 1]);
                }
            } else if a == i {
                assert(nv[b] == qv[b - 1]);
                if b - 1 > i {
                    assert(position_less(qv[i as int], qv[b - 1]));
                    lemma_position_transitive(pv, qv[i as int], qv[b - 1]);
                }
            } else {
                assert(nv[a] == qv[a - 1] && nv[b] == qv[b - 1]);
            }
        }
        assert forall|x: Seq<usize>| #[trigger] nv.contains(x) <==> (qv.contains(x) || x == pv) by {
            if nv.contains(x) {
                let k = choose|k: int| 0 <= k < nv.len() && nv[k] == x;
                if k < i {
                    assert(qv[k] == x);
                } else if k > i {
                    assert(qv[k - 1] == x);
                }
            }
            if qv.contains(x) {
                let k = choose|k: int| 0 <= k < qv.len() && qv[k] == x;
                if k < i {
                    assert(nv[k] == x);
                } else {
                    assert(nv[k + 1] == x);
                }
            }
            if x == pv {
                assert(nv[i as int] == x);
            }
        }
    }
}

/// The rank of a start position with indices below `b` in the order of
/// start positions: its sum of indices first, then its lexicographic rank.
pub open spec fn position_rank(p: Seq<usize>, b: nat) -> nat {
    (index_sum(p) as nat) * power(b, p.len()) + rank_from(p, 0, b)
}

/// The sum of indices below `b` is at most `b` times their number.
proof fn lemma_index_sum_below(p: Seq<usize>, b: nat)
    requires
        forall|j: int| 0 <= j < p.len() ==> p[j] < b,
    ensures
        0 <= index_sum(p) <= p.len() * b,
    decreases p.len(),
{
    if p.len() > 0 {
        lemma_index_sum_below(p.drop_last(), b);
        assert((p.len() - 1) * b + b == p.len() * b) by (nonlinear_arith);
    }
}

/// The rank of a start position with indices below `b` is below a bound
/// that depends on their number only.
pub proof fn lemma_position_rank_bound(p: Seq<usize>, b: nat)
    requires
        b >= 1,
        forall|j: int| 0 <= j < p.len() ==> p[j] < b,
    ensures
        position_rank(p, b) < (p.len() * b + 1) * power(b, p.len()),
{
    lemma_index_sum_below(p, b);
    lemma_rank_bound(p, 0, b);
    let s = index_sum(p) as nat;
    let w = power(b, p.len());
    let r = rank_from(p, 0, b);
    let m = p.len() * b;
    assert(s * w + r < (m + 1) * w) by (nonlinear_arith)
        requires
            s <= m,
            r < w,
    ;
}

/// The order of start positions with indices below `b` is the order of
/// their ranks.
pub proof fn lemma_position_rank_less(p: Seq<usize>, q: Seq<usize>, b: nat)
    requires
        p.len() == q.len(),
        b >= 1,
        forall|j: int| 0 <= j < p.len() ==> p[j] < b,
        forall|j: int| 0 <= j < q.len() ==> q[j] < b,
        position_less(p, q),
    ensures
        position_rank(p, b) < position_rank(q, b),
{
    lemma_index_sum_below(p, b);
    lemma_index_sum_below(q, b);
    lemma_rank_bound(p, 0, b);
    lemma_rank_bound(q, 0, b);
    let w = power(b, p.len());
    let rp = rank_from(p, 0, b);
    let rq = rank_from(q, 0, b);
    let sp = index_sum(p) as nat;
    let sq = index_sum(q) as nat;
    if index_sum(p) < index_sum(q) {
        assert(sp * w + rp < sq * w + rq) by (nonlinear_arith)
            requires
                sp < sq,
                rp < w,
        ;
    } else {
        lemma_rank_lex(p, q, 0, b);
    }
}

} // verus!
