use vstd::prelude::*;

verus! {

/// Values that can stand as automaton labels or DFA states: they can be
/// compared and duplicated, and both operations are described through the
/// value's `deep_view`.
pub trait Symbol: DeepView + Sized {
    /// Tells whether two symbols are the same.
    fn same_as(&self, other: &Self) -> (r: bool)
        ensures
            r == (self.deep_view() == other.deep_view()),
    ;

    /// Returns a copy of the symbol.
    fn duplicate(&self) -> (r: Self)
        ensures
            r.deep_view() == self.deep_view(),
    ;
}

impl Symbol for char {
    fn same_as(&self, other: &Self) -> (r: bool) {
        *self == *other
    }

    fn duplicate(&self) -> (r: Self) {
        *self
    }
}

impl Symbol for u64 {
    fn same_as(&self, other: &Self) -> (r: bool) {
        *self == *other
    }

    fn duplicate(&self) -> (r: Self) {
        *self
    }
}

impl Symbol for usize {
    fn same_as(&self, other: &Self) -> (r: bool) {
        *self == *other
    }

    fn duplicate(&self) -> (r: Self) {
        *self
    }
}

impl Symbol for String {
    fn same_as(&self, other: &Self) -> (r: bool) {
        *self == *other
    }

    fn duplicate(&self) -> (r: Self) {
        self.clone()
    }
}

impl Symbol for Option<String> {
    fn same_as(&self, other: &Self) -> (r: bool) {
        match (self, other) {
            (Some(a), Some(b)) => a.same_as(b),
            (None, None) => true,
            _ => false,
        }
    }

    fn duplicate(&self) -> (r: Self) {
        match self {
            Some(a) => Some(a.clone()),
            None => None,
        }
    }
}

impl Symbol for (String, usize) {
    fn same_as(&self, other: &Self) -> (r: bool) {
        self.0 == other.0 && self.1 == other.1
    }

    fn duplicate(&self) -> (r: Self) {
        (self.0.clone(), self.1)
    }
}

/// A label of an automaton over `dimensions` variables.
pub trait ValidLabel: Symbol {
    /// Whether the label may stand in an automaton with `dimensions` variables.
    spec fn valid_for(&self, dimensions: nat) -> bool;

    /// Checks the label against the number of variables.
    fn validate(&self, dimensions: usize) -> (r: bool)
        ensures
            r == self.valid_for(dimensions as nat),
    ;

    /// Validity depends on the label's value alone.
    proof fn lemma_valid_for_view(&self, other: &Self, dimensions: nat)
        requires
            self.deep_view() == other.deep_view(),
        ensures
            self.valid_for(dimensions) == other.valid_for(dimensions),
    ;
}

impl ValidLabel for (String, usize) {
    /// A label (letter, var) needs `var` to name one of the variables.
    open spec fn valid_for(&self, dimensions: nat) -> bool {
        self.1 < dimensions
    }

    fn validate(&self, dimensions: usize) -> (r: bool) {
        self.1 < dimensions
    }

    proof fn lemma_valid_for_view(&self, other: &Self, dimensions: nat) {
    }
}

impl ValidLabel for String {
    open spec fn valid_for(&self, dimensions: nat) -> bool {
        true
    }

    fn validate(&self, dimensions: usize) -> (r: bool) {
        true
    }

    proof fn lemma_valid_for_view(&self, other: &Self, dimensions: nat) {
    }
}

impl ValidLabel for Option<String> {
    open spec fn valid_for(&self, dimensions: nat) -> bool {
        true
    }

    fn validate(&self, dimensions: usize) -> (r: bool) {
        true
    }

    proof fn lemma_valid_for_view(&self, other: &Self, dimensions: nat) {
    }
}

impl ValidLabel for char {
    open spec fn valid_for(&self, dimensions: nat) -> bool {
        true
    }

    fn validate(&self, dimensions: usize) -> (r: bool) {
        true
    }

    proof fn lemma_valid_for_view(&self, other: &Self, dimensions: nat) {
    }
}

/// Pushing `x` adds exactly `x` to the members of `s`.
pub proof fn lemma_push_contains<T>(s: Seq<T>, x: T)
    ensures
        forall|q: T| #[trigger] s.push(x).contains(q) <==> (s.contains(q) || q == x),
{
    assert forall|q: T| #[trigger] s.push(x).contains(q) <==> (s.contains(q) || q == x) by {
        if s.contains(q) {
            let k = choose|k: int| 0 <= k < s.len() && s[k] == q;
            assert(s.push(x)[k] == q);
        }
        if q == x {
            assert(s.push(x)[s.len() as int] == q);
        }
        if s.push(x).contains(q) {
            let k = choose|k: int| 0 <= k < s.push(x).len() && s.push(x)[k] == q;
            if k < s.len() {
                assert(s[k] == q);
            }
        }
    }
}

/// Copies a vector of symbols.
pub fn duplicate_all<T: Symbol>(v: &Vec<T>) -> (r: Vec<T>)
    ensures
        r.deep_view() == v.deep_view(),
{
    let mut r: Vec<T> = Vec::new();
    for i in 0..v.len()
        invariant
            r.len() == i,
            i <= v.len(),
            forall|k: int| 0 <= k < i ==> r[k].deep_view() == v[k].deep_view(),
    {
        r.push(v[i].duplicate());
    }
    assert(r.deep_view() =~= v.deep_view());
    r
}

/// Finds the position of a symbol in a vector.
pub fn position_of<T: Symbol>(v: &Vec<T>, x: &T) -> (r: Option<usize>)
    ensures
        match r {
            Some(i) => i < v.len() && v.deep_view()[i as int] == x.deep_view()
                && v.deep_view().contains(x.deep_view())
                && forall|k: int| 0 <= k < i ==> v.deep_view()[k] != x.deep_view(),
            None => !v.deep_view().contains(x.deep_view()),
        },
{
    for i in 0..v.len()
        invariant
            forall|k: int| 0 <= k < i ==> v.deep_view()[k] != x.deep_view(),
    {
        if v[i].same_as(x) {
            assert(v.deep_view()[i as int] == v[i as int].deep_view());
            return Some(i);
        }
    }
    None
}

} // verus!
