use vstd::prelude::*;

verus! {

/// An append-only sequence. Elements keep their positions once appended, so
/// a `ReadableView` taken earlier stays valid and sees later appends.
/// Closing the sequence records that no more elements will come.
pub struct AppendOnlySequence<T> {
    data: Vec<T>,
    closed: bool,
}

impl<T> AppendOnlySequence<T> {
    /// The elements of the sequence.
    pub closed spec fn items(&self) -> Seq<T> {
        self.data@
    }

    /// Whether the sequence has been closed.
    pub closed spec fn is_closed_spec(&self) -> bool {
        self.closed
    }

    /// The number of elements fits in a `usize`.
    pub proof fn lemma_len_bound(&self)
        ensures
            self.items().len() <= usize::MAX,
    {
        assert(self.data@.len() == self.data.len());
    }

    /// Creates a new, empty, open sequence.
    pub fn new() -> (r: Self)
        ensures
            r.items() == Seq::<T>::empty(),
            !r.is_closed_spec(),
    {
        Self { data: Vec::new(), closed: false }
    }

    /// Appends a value at the end of the sequence.
    pub fn append(&mut self, value: T)
        ensures
            final(self).items() == old(self).items().push(value),
            final(self).is_closed_spec() == old(self).is_closed_spec(),
    {
        self.data.push(value);
    }

    /// Removes all the elements.
    pub fn clear(&mut self)
        ensures
            final(self).items() == Seq::<T>::empty(),
            final(self).is_closed_spec() == old(self).is_closed_spec(),
    {
        self.data.clear();
    }

    /// Marks the sequence as closed.
    pub fn close(&mut self)
        ensures
            final(self).items() == old(self).items(),
            final(self).is_closed_spec(),
    {
        self.closed = true;
    }

    /// Whether the sequence has been closed.
    pub fn is_closed(&self) -> (r: bool)
        ensures
            r == self.is_closed_spec(),
    {
        self.closed
    }

    /// The number of elements.
    pub fn len(&self) -> (r: usize)
        ensures
            r == self.items().len(),
    {
        self.data.len()
    }

    /// The element at position `i`, if there is one.
    pub fn get(&self, i: usize) -> (r: Option<&T>)
        ensures
            match r {
                Some(x) => i < self.items().len() && *x == self.items()[i as int],
                None => i >= self.items().len(),
            },
    {
        if i < self.data.len() {
            Some(&self.data[i])
        } else {
            None
        }
    }

    /// All the elements.
    pub fn as_slice(&self) -> (r: &[T])
        ensures
            r@ == self.items(),
    {
        self.data.as_slice()
    }

    /// A view that reads the sequence from its first element.
    pub fn readable_view(&self) -> (r: ReadableView)
        ensures
            r.start == 0,
    {
        ReadableView::new()
    }
}

impl<T: DeepView> AppendOnlySequence<T> {
    /// The elements of the sequence, each taken by its deep view.
    pub open spec fn items_deep(&self) -> Seq<T::V> {
        self.items().map_values(|x: T| x.deep_view())
    }
}

/// A reading position in an `AppendOnlySequence`. The view reads the
/// elements from `start` to the current end of the sequence it is used with.
#[derive(Clone, Copy, PartialEq, Eq, Structural, Debug, Hash)]
pub struct ReadableView {
    /// The position of the first element still to be read.
    pub start: usize,
}

impl ReadableView {
    /// A view at the beginning of a sequence.
    pub fn new() -> (r: Self)
        ensures
            r.start == 0,
    {
        ReadableView { start: 0 }
    }

    /// Moves the view forward by `count` elements of `seq`, stopping at its end.
    pub fn advance_readable<T>(&mut self, seq: &AppendOnlySequence<T>, count: usize)
        ensures
            final(self).start == if old(self).start + count < seq.items().len() {
                (old(self).start + count) as int
            } else {
                seq.items().len() as int
            },
    {
        let len = seq.len();
        if count < len && self.start < len - count {
            self.start = self.start + count;
        } else {
            self.start = len;
        }
    }

    /// The elements of `seq` from `start` to its end; none when `start`
    /// lies at or past the end (as after the sequence was cleared).
    pub fn readable_slice<'a, T>(&self, seq: &'a AppendOnlySequence<T>) -> (r: &'a [T])
        ensures
            self.start <= seq.items().len() ==> r@ == seq.items().subrange(self.start as int, seq.items().len() as int),
            self.start > seq.items().len() ==> r@.len() == 0,
    {
        let all = seq.as_slice();
        if self.start <= all.len() {
            &all[self.start..all.len()]
        } else {
            &all[all.len()..all.len()]
        }
    }

    /// The number of elements of `seq` still to be read: 0 when `start`
    /// lies at or past the end.
    pub fn len<T>(&self, seq: &AppendOnlySequence<T>) -> (r: usize)
        ensures
            r == if self.start <= seq.items().len() {
                seq.items().len() - self.start
            } else {
                0
            },
    {
        let n = seq.len();
        if self.start <= n {
            n - self.start
        } else {
            0
        }
    }

    /// Whether nothing of `seq` is left to read.
    pub fn is_empty<T>(&self, seq: &AppendOnlySequence<T>) -> (r: bool)
        ensures
            r == (self.start >= seq.items().len()),
    {
        self.len(seq) == 0
    }
}

} // verus!
