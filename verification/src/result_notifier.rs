use vstd::prelude::*;
use crate::shared_buffer::SharedBufferSource;
use crate::serialization::{decimal, decimal_text};
use std::io::Write;
use std::collections::VecDeque;
use std::sync::Mutex;

verus! {

/// The positions where a matching starts and ends in one stream.
#[derive(PartialEq, Eq, Structural, Debug, Hash, Clone, Copy)]
pub struct MatchingInterval {
    pub start: usize,
    pub end: usize,
}

impl MatchingInterval {
    /// The interval from `start` to `end`.
    pub fn new(start: usize, end: usize) -> (r: Self)
        ensures
            r.start == start,
            r.end == end,
    {
        Self { start, end }
    }
}

/// Matching intervals, each with the identifier of the stream it lies in.
#[derive(Debug, Clone, PartialEq, Eq, Hash)]
pub struct MatchingResult {
    pub intervals: Vec<MatchingInterval>,
    pub ids: Vec<usize>,
}

impl MatchingResult {
    /// Pairs the intervals with their identifiers, which must be as many.
    pub fn new(intervals: Vec<MatchingInterval>, ids: Vec<usize>) -> (r: Self)
        requires
            intervals@.len() == ids@.len(),
        ensures
            r.intervals@ == intervals@,
            r.ids@ == ids@,
    {
        Self { intervals, ids }
    }
}

/// Copies a slice of intervals.
pub fn copy_intervals(s: &[MatchingInterval]) -> (r: Vec<MatchingInterval>)
    ensures
        r@ == s@,
{
    let mut r: Vec<MatchingInterval> = Vec::new();
    for i in 0..s.len()
        invariant
            r@ == s@.subrange(0, i as int),
    {
        r.push(s[i]);
        assert(r@ =~= s@.subrange(0, i + 1));
    }
    assert(r@ =~= s@);
    r
}

/// Copies a slice of identifiers.
pub fn copy_ids(s: &[usize]) -> (r: Vec<usize>)
    ensures
        r@ == s@,
{
    let mut r: Vec<usize> = Vec::new();
    for i in 0..s.len()
        invariant
            r@ == s@.subrange(0, i as int),
    {
        r.push(s[i]);
        assert(r@ =~= s@.subrange(0, i + 1));
    }
    assert(r@ =~= s@);
    r
}

/// Receives the matchings found: `intervals[i]` lies in the stream `ids[i]`.
pub trait ResultNotifier {
    /// Reports one matching.
    fn notify(&mut self, intervals: &[MatchingInterval], ids: &[usize]);
}

/// The text of one matching interval: `(id: start, end)`.
pub open spec fn entry_text(id: usize, start: usize, end: usize) -> Seq<char> {
    "("@ + decimal_text(id) + ": "@ + decimal_text(start) + ", "@ + decimal_text(end) + ")"@
}

/// Writes `(id: start, end)` into a new string.
fn format_entry(id: usize, start: usize, end: usize) -> (r: String)
    ensures
        r@ == entry_text(id, start, end),
{
    proof {
        reveal_strlit("(");
        reveal_strlit(": ");
        reveal_strlit(", ");
        reveal_strlit(")");
    }
    let mut r = String::new();
    r.push_str("(");
    let d = decimal(id);
    r.push_str(d.as_str());
    r.push_str(": ");
    let d = decimal(start);
    r.push_str(d.as_str());
    r.push_str(", ");
    let d = decimal(end);
    r.push_str(d.as_str());
    r.push_str(")");
    r
}

/// Writes a line to the standard output (`writeln!` on `std::io::stdout`);
/// a failure to write is ignored.
#[verifier::external_body]
fn print_line(line: &str) {
    let _ = writeln!(std::io::stdout(), "{}", line);
}

/// The text of the first `n` matching intervals, separated by commas.
pub open spec fn entries_text(intervals: Seq<MatchingInterval>, ids: Seq<usize>, n: nat) -> Seq<char>
    decreases n,
{
    if n == 0 {
        Seq::empty()
    } else {
        let prev = entries_text(intervals, ids, (n - 1) as nat);
        let entry = entry_text(ids[n - 1], intervals[n - 1].start, intervals[n - 1].end);
        if n == 1 {
            entry
        } else {
            prev + ", "@ + entry
        }
    }
}

/// The line that reports a matching: its intervals with their identifiers,
/// separated by commas.
pub fn result_line(intervals: &[MatchingInterval], ids: &[usize]) -> (r: String)
    requires
        ids@.len() >= intervals@.len(),
    ensures
        r@ == entries_text(intervals@, ids@, intervals@.len() as nat),
{
    let mut output = String::new();
    proof {
        reveal_strlit(", ");
    }
    for i in 0..intervals.len()
        invariant
            ids@.len() >= intervals@.len(),
            output@ == entries_text(intervals@, ids@, i as nat),
    {
        if i > 0 {
            output.push_str(", ");
        }
        let entry = format_entry(ids[i], intervals[i].start, intervals[i].end);
        output.push_str(entry.as_str());
    }
    output
}

/// Prints each matching on a line of the standard output.
#[derive(Clone, Copy)]
pub struct StdoutResultNotifier;

impl ResultNotifier for StdoutResultNotifier {
    fn notify(&mut self, intervals: &[MatchingInterval], ids: &[usize]) {
        if ids.len() >= intervals.len() {
            let line = result_line(intervals, ids);
            print_line(line.as_str());
        }
    }
}

/// Stores each matching in a shared buffer.
pub struct SharedBufferResultNotifier {
    buffer: SharedBufferSource<MatchingResult>,
    /// The matchings this notifier has appended, as intervals and
    /// identifiers, in order.
    sent: Ghost<Seq<(Seq<MatchingInterval>, Seq<usize>)>>,
}

impl SharedBufferResultNotifier {
    /// The shared queue the matchings go to.
    pub closed spec fn queue(&self) -> Mutex<VecDeque<MatchingResult>> {
        self.buffer.queue()
    }

    /// The matchings this notifier has appended to the queue, in order.
    pub closed spec fn sent(&self) -> Seq<(Seq<MatchingInterval>, Seq<usize>)> {
        self.sent@
    }

    /// A notifier writing to `buffer`, that has sent nothing yet.
    pub fn new(buffer: SharedBufferSource<MatchingResult>) -> (r: Self)
        ensures
            r.queue() == buffer.queue(),
            r.sent() == Seq::<(Seq<MatchingInterval>, Seq<usize>)>::empty(),
    {
        Self { buffer, sent: Ghost(Seq::empty()) }
    }
}

impl Clone for SharedBufferResultNotifier {
    /// Another notifier writing to the same shared queue, that has sent
    /// nothing yet.
    fn clone(&self) -> (r: Self)
        ensures
            r.queue() == self.queue(),
            r.sent() == Seq::<(Seq<MatchingInterval>, Seq<usize>)>::empty(),
    {
        Self { buffer: self.buffer.clone(), sent: Ghost(Seq::empty()) }
    }
}

impl ResultNotifier for SharedBufferResultNotifier {
    /// Appends the matching, as a `MatchingResult`, to the shared queue.
    fn notify(&mut self, intervals: &[MatchingInterval], ids: &[usize])
        ensures
            final(self).queue() == old(self).queue(),
            final(self).sent() == old(self).sent().push((intervals@, ids@)),
    {
        let result = MatchingResult { intervals: copy_intervals(intervals), ids: copy_ids(ids) };
        let ghost entry = (result.intervals@, result.ids@);
        self.buffer.push(result);
        proof {
            self.sent@ = self.sent@.push(entry);
        }
    }
}

} // verus!
