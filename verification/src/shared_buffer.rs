use vstd::prelude::*;
use std::collections::VecDeque;
use std::sync::{Arc, Mutex};
use vstd::string::StringSliceAdditionalSpecFns;
use crate::multi_stream_reader::{StreamSource, read_outcome, check_outcome};

verus! {

#[verifier::external_type_specification]
#[verifier::external_body]
#[verifier::reject_recursive_types(T)]
pub struct ExMutex<T: ?Sized>(Mutex<T>);

#[verifier::external_type_specification]
#[verifier::external_body]
pub struct ExIoError(std::io::Error);

/// Creates an empty queue behind a lock (`std::sync::Mutex::new` on an
/// empty `VecDeque`). Nothing is stated of the contents: other handles on
/// the same queue may change them at any time.
#[verifier::external_body]
fn new_locked_queue<T>() -> (r: Mutex<VecDeque<T>>) {
    Mutex::new(VecDeque::new())
}

/// Appends `value` to a locked queue (`Mutex::lock`, then
/// `VecDeque::push_back`). It panics only if the lock is poisoned, which
/// needs a thread to panic while holding it; nothing of this library does.
#[verifier::external_body]
fn locked_push_back<T>(queue: &Mutex<VecDeque<T>>, value: T) {
    queue.lock().unwrap().push_back(value);
}

/// Removes the first element of a locked queue (`Mutex::lock`, then
/// `VecDeque::pop_front`). What it returns depends on the other handles on
/// the queue, so nothing is stated of it.
#[verifier::external_body]
fn locked_pop_front<T>(queue: &Mutex<VecDeque<T>>) -> (r: Option<T>) {
    queue.lock().unwrap().pop_front()
}

/// A copy of the element at position `index` of a locked queue, if there is
/// one (`Mutex::lock`, `VecDeque::get`, `Option::cloned`). What it returns
/// depends on the other handles on the queue, so nothing is stated of it.
#[verifier::external_body]
fn locked_get<T: Clone>(queue: &Mutex<VecDeque<T>>, index: usize) -> (r: Option<T>) {
    queue.lock().unwrap().get(index).cloned()
}

/// The `std::str::from_utf8` reading of `bytes`: a text exactly when they
/// are valid UTF-8, and then the text with exactly these bytes.
#[verifier::external_body]
fn decode_utf8(bytes: &[u8]) -> (r: Option<&str>)
    ensures
        r is Some <==> vstd::utf8::valid_utf8(bytes@),
        r matches Some(s) ==> s.spec_bytes() == bytes@,
{
    std::str::from_utf8(bytes).ok()
}

/// `String::push_str` appends the characters of `string`.
pub assume_specification[ String::push_str ](s: &mut String, string: &str)
    ensures
        final(s)@ == old(s)@ + string@,
;

/// An error of kind `InvalidData` (`std::io::Error::new`).
#[verifier::external_body]
fn invalid_data_error() -> (r: std::io::Error) {
    std::io::Error::new(std::io::ErrorKind::InvalidData, "stream did not contain valid UTF-8")
}

/// A queue shared between producers and consumers of lines. Its sources
/// append to the queue and its sinks read it; the buffer itself can also be
/// read line by line, each line followed by a line feed.
#[verifier::reject_recursive_types(T)]
pub struct SharedBuffer<T> {
    buffer: Arc<Mutex<VecDeque<T>>>,
    internal_buf: Vec<u8>,
    /// What each read through this handle gave: the text, or nothing when
    /// it failed.
    reads: Ghost<Seq<Option<Seq<char>>>>,
    /// What each availability check through this handle answered, or
    /// nothing when it failed.
    checks: Ghost<Seq<Option<bool>>>,
}

impl<T> SharedBuffer<T> {
    /// The shared queue this handle works on.
    pub closed spec fn queue(&self) -> Mutex<VecDeque<T>> {
        *self.buffer
    }

    /// What each read of a line through this handle as a stream source gave:
    /// the text, or nothing when it failed.
    pub closed spec fn read_log(&self) -> Seq<Option<Seq<char>>> {
        self.reads@
    }

    /// What each availability check through this handle as a stream source
    /// answered, or nothing when it failed.
    pub closed spec fn check_log(&self) -> Seq<Option<bool>> {
        self.checks@
    }

    /// The bytes taken from the queue and not read yet.
    pub closed spec fn pending_bytes(&self) -> Seq<u8> {
        self.internal_buf@
    }

    /// The bytes not read yet are empty or end with a line feed.
    pub open spec fn wf(&self) -> bool {
        self.pending_bytes().len() == 0 || self.pending_bytes().last() == 10u8
    }

    /// Another handle on the same shared queue, with nothing pending.
    pub fn share(&self) -> (r: Self)
        ensures
            r.pending_bytes() == Seq::<u8>::empty(),
            r.wf(),
    {
        Self { buffer: self.buffer.clone(), internal_buf: Vec::new(), reads: Ghost(Seq::empty()), checks: Ghost(Seq::empty()) }
    }
}

impl<T: Clone> SharedBuffer<T> {
    /// Creates an empty buffer.
    pub fn new() -> (r: Self)
        ensures
            r.pending_bytes() == Seq::<u8>::empty(),
            r.wf(),
    {
        Self { buffer: Arc::new(new_locked_queue()), internal_buf: Vec::new(), reads: Ghost(Seq::empty()), checks: Ghost(Seq::empty()) }
    }

    /// Appends a line to the shared queue.
    pub fn push(&self, line: T) {
        locked_push_back(&self.buffer, line);
    }

    /// A handle that appends to the shared queue.
    pub fn make_source(&self) -> (r: SharedBufferSource<T>)
        ensures
            r.queue() == self.queue(),
    {
        SharedBufferSource::new(self.buffer.clone())
    }

    /// A handle that reads the shared queue from its beginning.
    pub fn make_sink(&self) -> (r: SharedBufferSink<T>)
        ensures
            r.position() == 0,
            r.queue() == self.queue(),
    {
        SharedBufferSink::new(self.buffer.clone())
    }
}

impl<T> Clone for SharedBuffer<T> {
    /// Another handle on the same shared queue, with nothing pending.
    fn clone(&self) -> (r: Self)
        ensures
            r.pending_bytes() == Seq::<u8>::empty(),
    {
        self.share()
    }
}

/// The position just after the first line feed of `b`, or the length of
/// `b` when it has none.
pub open spec fn line_end(b: Seq<u8>) -> int
    decreases b.len(),
{
    if b.len() == 0 {
        0
    } else if b[0] == 10u8 {
        1
    } else {
        1 + line_end(b.drop_first())
    }
}

/// Only the empty text has an empty encoding.
proof fn lemma_encoding_empty(s: Seq<char>)
    ensures
        (s.len() == 0) == (vstd::utf8::encode_utf8(s).len() == 0),
{
    if s.len() > 0 {
        assert(vstd::utf8::encode_scalar(s[0] as u32).len() >= 1);
    }
}

proof fn lemma_line_end_bounds(b: Seq<u8>)
    ensures
        0 <= line_end(b) <= b.len(),
        b.len() > 0 ==> line_end(b) >= 1,
    decreases b.len(),
{
    if b.len() > 0 && b[0] != 10u8 {
        lemma_line_end_bounds(b.drop_first());
    }
}

impl<'a> SharedBuffer<&'a str> {
    /// The bytes not read yet; when there are none, the next line of the
    /// queue is taken, followed by a line feed.
    pub fn fill_buf(&mut self) -> (r: Result<&[u8], std::io::Error>)
        requires
            old(self).wf(),
        ensures
            final(self).wf(),
            old(self).pending_bytes().len() > 0 ==> final(self).pending_bytes() == old(self).pending_bytes(),
            r matches Ok(b) && b@ == final(self).pending_bytes(),
            final(self).read_log() == old(self).read_log() && final(self).check_log() == old(self).check_log(),
    {
        if self.internal_buf.len() == 0 {
            match locked_pop_front(&self.buffer) {
                Some(line) => {
                    let bytes = line.as_bytes();
                    for i in 0..bytes.len()
                        invariant
                            self.internal_buf@ == bytes@.subrange(0, i as int),
                            self.reads == old(self).reads,
                            self.checks == old(self).checks,
                    {
                        self.internal_buf.push(bytes[i]);
                        assert(self.internal_buf@ =~= bytes@.subrange(0, i + 1));
                    }
                    self.internal_buf.push(10u8);
                },
                None => {},
            }
        }
        Ok(self.internal_buf.as_slice())
    }

    /// Marks the first `amt` pending bytes as read.
    pub fn consume(&mut self, amt: usize)
        requires
            old(self).wf(),
            amt <= old(self).pending_bytes().len(),
        ensures
            final(self).wf(),
            final(self).pending_bytes() == old(self).pending_bytes().subrange(
                amt as int,
                old(self).pending_bytes().len() as int,
            ),
            final(self).read_log() == old(self).read_log() && final(self).check_log() == old(self).check_log(),
    {
        let rest = self.internal_buf.split_off(amt);
        self.internal_buf = rest;
    }

    /// Reads the next line, with its line feed, and appends it to `buf`.
    /// Returns the number of bytes read, 0 when nothing is left for now.
    pub fn read_line(&mut self, buf: &mut String) -> (r: Result<usize, std::io::Error>)
        requires
            old(self).wf(),
        ensures
            final(self).wf(),
            old(self).pending_bytes().len() > 0 ==> {
                let n = line_end(old(self).pending_bytes());
                &&& final(self).pending_bytes() == old(self).pending_bytes().subrange(n, old(self).pending_bytes().len() as int)
                &&& r matches Ok(k) ==> k == n && exists|s: Seq<char>|
                    final(buf)@ == old(buf)@ + s && vstd::utf8::encode_utf8(s) == old(self).pending_bytes().subrange(0, n)
            },
            r matches Ok(k) ==> (k == 0 <==> final(buf)@ == old(buf)@),
            old(self).pending_bytes().len() > 0 && vstd::utf8::valid_utf8(
                old(self).pending_bytes().subrange(0, line_end(old(self).pending_bytes())),
            ) ==> r is Ok,
            r is Ok ==> old(buf)@.len() <= final(buf)@.len() && final(buf)@.subrange(0, old(buf)@.len() as int) == old(buf)@,
            r is Err ==> final(buf)@ == old(buf)@,
            final(self).read_log() == old(self).read_log() && final(self).check_log() == old(self).check_log(),
    {
        let available = match self.fill_buf() {
            Ok(b) => b,
            Err(e) => {
                return Err(e);
            },
        };
        let ghost pending = available@;
        proof {
            lemma_line_end_bounds(pending);
        }
        let mut n: usize = 0;
        assert(available@.subrange(0, available@.len() as int) =~= available@);
        while n < available.len() && available[n] != 10u8
            invariant
                n <= available@.len(),
                line_end(available@) == n + line_end(available@.subrange(n as int, available@.len() as int)),
            decreases available@.len() - n,
        {
            proof {
                let rest = available@.subrange(n as int, available@.len() as int);
                assert(rest.drop_first() =~= available@.subrange(n + 1, available@.len() as int));
            }
            n = n + 1;
        }
        if n < available.len() {
            proof {
                let rest = available@.subrange(n as int, available@.len() as int);
                assert(rest[0] == 10u8);
            }
            n = n + 1;
        }
        let text = decode_utf8(&available[0..n]);
        match text {
            Some(s) => {
                proof {
                    lemma_encoding_empty(s@);
                }
                buf.push_str(s);
                self.consume(n);
                Ok(n)
            },
            None => {
                self.consume(n);
                Err(invalid_data_error())
            },
        }
    }
}

/// A handle that appends to a shared queue.
#[verifier::reject_recursive_types(T)]
pub struct SharedBufferSource<T> {
    buffer: Arc<Mutex<VecDeque<T>>>,
}

impl<T> SharedBufferSource<T> {
    /// The shared queue this handle appends to.
    pub closed spec fn queue(&self) -> Mutex<VecDeque<T>> {
        *self.buffer
    }

    /// A source writing to `buffer`.
    pub fn new(buffer: Arc<Mutex<VecDeque<T>>>) -> (r: Self)
        ensures
            r.queue() == *buffer,
    {
        Self { buffer }
    }

    /// Appends a line to the shared queue.
    pub fn push(&self, line: T) {
        locked_push_back(&self.buffer, line);
    }
}

impl<T> Clone for SharedBufferSource<T> {
    /// Another handle appending to the same shared queue.
    fn clone(&self) -> (r: Self)
        ensures
            r.queue() == self.queue(),
    {
        Self { buffer: self.buffer.clone() }
    }
}

/// A handle that reads a shared queue in order, without removing anything.
#[verifier::reject_recursive_types(T)]
pub struct SharedBufferSink<T> {
    buffer: Arc<Mutex<VecDeque<T>>>,
    start: usize,
}

impl<T> SharedBufferSink<T> {
    /// The shared queue this handle reads.
    pub closed spec fn queue(&self) -> Mutex<VecDeque<T>> {
        *self.buffer
    }

    /// The number of elements read so far.
    pub closed spec fn position(&self) -> nat {
        self.start as nat
    }
}

impl<T: Clone> SharedBufferSink<T> {
    /// A sink reading `buffer` from its beginning.
    pub fn new(buffer: Arc<Mutex<VecDeque<T>>>) -> (r: Self)
        ensures
            r.position() == 0,
            r.queue() == *buffer,
    {
        Self { buffer, start: 0 }
    }

    /// The next element of the queue, if there is one; the sink then moves
    /// past it.
    pub fn pop(&mut self) -> (r: Option<T>)
        ensures
            final(self).position() == if r is Some {
                old(self).position() + 1int
            } else {
                old(self).position() as int
            },
            old(self).position() == usize::MAX ==> r is None,
            final(self).queue() == old(self).queue(),
    {
        if self.start == usize::MAX {
            return None;
        }
        match locked_get(&self.buffer, self.start) {
            Some(x) => {
                self.start = self.start + 1;
                Some(x)
            },
            None => None,
        }
    }
}


impl<'a> StreamSource for SharedBuffer<&'a str> {
    open spec fn ready(&self) -> bool {
        self.wf()
    }

    closed spec fn read_log(&self) -> Seq<Option<Seq<char>>> {
        self.reads@
    }

    closed spec fn check_log(&self) -> Seq<Option<bool>> {
        self.checks@
    }

    /// Reads the next pending line as `SharedBuffer::read_line` does.
    fn read_line(&mut self, buf: &mut String) -> (r: std::io::Result<usize>)
        ensures
            old(self).pending_bytes().len() > 0 ==> {
                let n = line_end(old(self).pending_bytes());
                &&& final(self).pending_bytes() == old(self).pending_bytes().subrange(n, old(self).pending_bytes().len() as int)
                &&& r matches Ok(k) ==> k == n && exists|s: Seq<char>|
                    final(buf)@ == old(buf)@ + s && vstd::utf8::encode_utf8(s) == old(self).pending_bytes().subrange(0, n)
            },
            r matches Ok(k) ==> (k == 0 <==> final(buf)@ == old(buf)@),
            old(self).pending_bytes().len() > 0 && vstd::utf8::valid_utf8(
                old(self).pending_bytes().subrange(0, line_end(old(self).pending_bytes())),
            ) ==> r is Ok,
    {
        let ghost before = buf@;
        let r = SharedBuffer::read_line(self, buf);
        proof {
            self.reads@ = self.reads@.push(read_outcome(r, before, buf@));
        }
        r
    }

    /// Whether bytes are pending once `fill_buf` has taken the next line of
    /// the queue if none were.
    fn has_data(&mut self) -> (r: std::io::Result<bool>)
        ensures
            r matches Ok(b) && (b <==> final(self).pending_bytes().len() > 0),
            old(self).pending_bytes().len() > 0 ==> final(self).pending_bytes() == old(self).pending_bytes(),
    {
        let r = match self.fill_buf() {
            Ok(bytes) => Ok(bytes.len() > 0),
            Err(e) => Err(e),
        };
        proof {
            self.checks@ = self.checks@.push(check_outcome(r));
        }
        r
    }
}

} // verus!
