use vstd::prelude::*;

verus! {

/// The outcome of a read of a line, as the text read or nothing when the
/// read failed.
pub open spec fn read_outcome(r: std::io::Result<usize>, before: Seq<char>, after: Seq<char>) -> Option<Seq<char>> {
    match r {
        Ok(_) => Some(after.subrange(before.len() as int, after.len() as int)),
        Err(_) => None,
    }
}

/// The answer of an availability check, or nothing when it failed.
pub open spec fn check_outcome(r: std::io::Result<bool>) -> Option<bool> {
    match r {
        Ok(b) => Some(b),
        Err(_) => None,
    }
}

/// A source of lines.
pub trait StreamSource {
    /// The source can be read.
    spec fn ready(&self) -> bool;

    /// What each read of a line has given so far: the text, or nothing when
    /// it failed.
    spec fn read_log(&self) -> Seq<Option<Seq<char>>>;

    /// What each availability check has answered so far, or nothing when it
    /// failed.
    spec fn check_log(&self) -> Seq<Option<bool>>;

    /// Reads the next line, with its line feed, and appends it to `buf`;
    /// returns the number of bytes read, 0 when nothing is there for now.
    fn read_line(&mut self, buf: &mut String) -> (r: std::io::Result<usize>)
        requires
            old(self).ready(),
        ensures
            final(self).ready(),
            r is Ok ==> old(buf)@.len() <= final(buf)@.len() && final(buf)@.subrange(0, old(buf)@.len() as int) == old(buf)@,
            final(self).read_log() == old(self).read_log().push(read_outcome(r, old(buf)@, final(buf)@)),
            final(self).check_log() == old(self).check_log(),
    ;

    /// Whether a line can be read now.
    fn has_data(&mut self) -> (r: std::io::Result<bool>)
        requires
            old(self).ready(),
        ensures
            final(self).ready(),
            final(self).read_log() == old(self).read_log(),
            final(self).check_log() == old(self).check_log().push(check_outcome(r)),
    ;
}

/// An error of kind `InvalidInput` for a stream index out of range
/// (`std::io::Error::new`).
#[verifier::external_body]
fn invalid_index_error() -> (r: std::io::Error) {
    std::io::Error::new(std::io::ErrorKind::InvalidInput, "Invalid stream index")
}

/// Reads lines from several sources, each designated by its index.
pub struct MultiStreamReader<S: StreamSource> {
    pub readers: Vec<S>,
}

impl<S: StreamSource> MultiStreamReader<S> {
    /// Every source can be read.
    pub open spec fn ready(&self) -> bool {
        forall|i: int| 0 <= i < self.readers@.len() ==> (#[trigger] self.readers@[i]).ready()
    }

    /// A reader over `sources`, in order.
    pub fn new(sources: Vec<S>) -> (r: Self)
        ensures
            r.readers@ == sources@,
    {
        Self { readers: sources }
    }

    /// The number of streams.
    pub fn size(&self) -> (r: usize)
        ensures
            r == self.readers@.len(),
    {
        self.readers.len()
    }

    /// Reads a line, with its line feed, from the stream `n`; an index out
    /// of range is an error.
    pub fn read_line(&mut self, n: usize) -> (r: std::io::Result<String>)
        requires
            old(self).ready(),
        ensures
            final(self).ready(),
            final(self).readers@.len() == old(self).readers@.len(),
            n >= old(self).readers@.len() ==> r is Err && final(self).readers@ == old(self).readers@,
            forall|i: int| 0 <= i < old(self).readers@.len() && i != n ==> #[trigger] final(self).readers@[i] == old(self).readers@[i],
            n < old(self).readers@.len() ==> final(self).readers@[n as int].read_log() == old(self).readers@[n as int].read_log().push(
                match r {
                    Ok(line) => Some(line@),
                    Err(_) => None,
                },
            ) && final(self).readers@[n as int].check_log() == old(self).readers@[n as int].check_log(),
    {
        if n >= self.readers.len() {
            return Err(invalid_index_error());
        }
        let mut line = String::new();
        let ghost empty = line@;
        let ghost before = self.readers@;
        let result = self.readers[n].read_line(&mut line);
        proof {
            assert forall|i: int| 0 <= i < self.readers@.len() implies (#[trigger] self.readers@[i]).ready() by {
                if i != n {
                    assert(self.readers@[i] == before[i]);
                }
            }
        }
        proof {
            assert(empty.len() == 0);
            assert(line@.subrange(0, line@.len() as int) =~= line@);
        }
        match result {
            Ok(_) => Ok(line),
            Err(e) => Err(e),
        }
    }

    /// Whether a line can be read now from the stream `n`; an index out of
    /// range is an error, and a source that fails to tell has none.
    pub fn is_available(&mut self, n: usize) -> (r: std::io::Result<bool>)
        requires
            old(self).ready(),
        ensures
            final(self).ready(),
            final(self).readers@.len() == old(self).readers@.len(),
            r is Err <==> n >= old(self).readers@.len(),
            n >= old(self).readers@.len() ==> final(self).readers@ == old(self).readers@,
            forall|i: int| 0 <= i < old(self).readers@.len() && i != n ==> #[trigger] final(self).readers@[i] == old(self).readers@[i],
            n < old(self).readers@.len() ==> {
                let log = final(self).readers@[n as int].check_log();
                &&& log == old(self).readers@[n as int].check_log().push(log.last())
                &&& r matches Ok(b) && b == (log.last() == Some(true))
                &&& final(self).readers@[n as int].read_log() == old(self).readers@[n as int].read_log()
            },
    {
        if n >= self.readers.len() {
            return Err(invalid_index_error());
        }
        let ghost before = self.readers@;
        let result = self.readers[n].has_data();
        proof {
            assert forall|i: int| 0 <= i < self.readers@.len() implies (#[trigger] self.readers@[i]).ready() by {
                if i != n {
                    assert(self.readers@[i] == before[i]);
                }
            }
        }
        match result {
            Ok(available) => Ok(available),
            Err(_) => Ok(false),
        }
    }
}

} // verus!
