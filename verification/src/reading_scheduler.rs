use vstd::prelude::*;
use crate::hyper_pattern_matching::HyperPatternMatching;
use crate::multi_stream_reader::{MultiStreamReader, StreamSource};

verus! {

/// `c` has the Unicode `White_Space` property.
pub open spec fn is_white_space(c: char) -> bool {
    let x = c as u32;
    ||| 9 <= x <= 13
    ||| x == 32
    ||| x == 0x85
    ||| x == 0xA0
    ||| x == 0x1680
    ||| 0x2000 <= x <= 0x200A
    ||| x == 0x2028
    ||| x == 0x2029
    ||| x == 0x202F
    ||| x == 0x205F
    ||| x == 0x3000
}

/// The text without its trailing whitespace.
pub open spec fn trimmed_end(s: Seq<char>) -> Seq<char>
    decreases s.len(),
{
    if s.len() > 0 && is_white_space(s.last()) {
        trimmed_end(s.drop_last())
    } else {
        s
    }
}

/// The text without its trailing whitespace (`str::trim_end`, which drops
/// the trailing characters with the `White_Space` property).
#[verifier::external_body]
fn trim_line_end(s: &str) -> (r: &str)
    ensures
        r@ == trimmed_end(s@),
{
    s.trim_end()
}

/// One round on a stream that was not done: the read log gained one
/// outcome; a failed read leaves the availability log and the fed letters as
/// they were and makes the stream done; a line read is fed, trimmed of its
/// trailing whitespace, unless the stream had ended, and one availability
/// answer follows, the stream being done unless it said a line is there.
pub open spec fn round_step(
    reads0: Seq<Option<Seq<char>>>,
    reads1: Seq<Option<Seq<char>>>,
    checks0: Seq<Option<bool>>,
    checks1: Seq<Option<bool>>,
    fed0: Seq<Seq<char>>,
    fed1: Seq<Seq<char>>,
    ended: bool,
    done: bool,
) -> bool {
    &&& reads1 == reads0.push(reads1.last())
    &&& match reads1.last() {
        None => checks1 == checks0 && done && fed1 == fed0,
        Some(l) => {
            &&& checks1 == checks0.push(checks1.last())
            &&& (done <==> checks1.last() != Some(true))
            &&& !ended ==> fed1 == fed0.push(trimmed_end(l))
        },
    }
}

/// The calls of `feed` in one round, in the order of the streams:
/// `lines[k]` is the line read from the stream `k` in that round, if one
/// was, and it is fed trimmed of its trailing whitespace.
pub open spec fn round_feeds(lines: Seq<Option<Seq<char>>>) -> Seq<(usize, Seq<char>)>
    decreases lines.len(),
{
    if lines.len() == 0 {
        Seq::empty()
    } else {
        let rest = round_feeds(lines.drop_last());
        match lines.last() {
            Some(l) => rest.push(((lines.len() - 1) as usize, trimmed_end(l))),
            None => rest,
        }
    }
}

/// Feeds the lines of several streams to a hyper pattern matching, one
/// stream after the other.
pub struct ReadingScheduler<M: HyperPatternMatching, S: StreamSource> {
    matching: M,
    reader: MultiStreamReader<S>,
    done: Vec<bool>,
    finished: bool,
    log: Ghost<Seq<(usize, Seq<char>)>>,
}

impl<M: HyperPatternMatching, S: StreamSource> ReadingScheduler<M, S> {
    /// The matchings left have been reported.
    pub closed spec fn is_finished(&self) -> bool {
        self.finished
    }

    /// The calls of `feed` made so far, in order, each as the stream and
    /// the letter fed.
    pub closed spec fn feeds(&self) -> Seq<(usize, Seq<char>)> {
        self.log@
    }

    /// For each of the first `n` streams, the line read from it between the
    /// states `s0` and `s1`, if one was: the last outcome of its reads when
    /// it was open in `s0`.
    pub open spec fn round_lines(s0: Self, s1: Self, n: int) -> Seq<Option<Seq<char>>> {
        Seq::new(n as nat, |k: int| if !s0.is_finished() && !s0.is_done(k) { s1.read_log(k).last() } else { None })
    }

    /// What each read of stream `i` has given so far.
    pub closed spec fn read_log(&self, i: int) -> Seq<Option<Seq<char>>> {
        self.reader.readers@[i].read_log()
    }

    /// What each availability check of stream `i` has answered so far.
    pub closed spec fn check_log(&self, i: int) -> Seq<Option<bool>> {
        self.reader.readers@[i].check_log()
    }

    /// The stream `i` is done.
    pub closed spec fn is_done(&self, i: int) -> bool {
        self.done@[i]
    }

    /// The number of streams.
    pub closed spec fn num_streams(&self) -> nat {
        self.done@.len()
    }

    /// The letters fed to the matching so far, per stream.
    pub closed spec fn fed(&self) -> Seq<Seq<Seq<char>>> {
        self.matching.fed()
    }

    /// The matching holds the stream `i` as ended.
    pub closed spec fn stream_ended(&self, i: int) -> bool {
        self.matching.ended(i)
    }

    /// Every stream is done.
    pub closed spec fn all_done(&self) -> bool {
        forall|i: int| 0 <= i < self.done@.len() ==> #[trigger] self.done@[i]
    }

    /// The matching and the reader agree on the streams, and a stream that
    /// is done has ended for the matching.
    pub closed spec fn inv(&self) -> bool {
        &&& self.matching.ready()
        &&& self.reader.ready()
        &&& self.matching.tracks() == self.reader.readers@.len()
        &&& self.done@.len() == self.reader.readers@.len()
        &&& forall|i: int| 0 <= i < self.done@.len() && #[trigger] self.done@[i] ==> self.matching.ended(i)
        &&& self.finished ==> self.all_done()
    }

    /// A scheduler feeding the lines of `reader` to `matching`.
    pub fn new(matching: M, reader: MultiStreamReader<S>) -> (r: Self)
        requires
            matching.ready(),
            reader.ready(),
            matching.tracks() == reader.readers@.len(),
        ensures
            r.inv(),
            !r.is_finished(),
            r.num_streams() == reader.readers@.len(),
            forall|i: int| 0 <= i < r.num_streams() ==> !#[trigger] r.is_done(i),
            r.fed() == matching.fed(),
            r.feeds() == Seq::<(usize, Seq<char>)>::empty(),
    {
        let mut done: Vec<bool> = Vec::new();
        let n = reader.size();
        for i in 0..n
            invariant
                n == reader.readers@.len(),
                done@.len() == i,
                forall|k: int| 0 <= k < i ==> !done@[k],
        {
            done.push(false);
        }
        Self { matching, reader, done, finished: false, log: Ghost(Seq::empty()) }
    }

    /// Marks the stream `i` as done, for the scheduler and the matching.
    fn mark_done(&mut self, i: usize)
        requires
            old(self).inv(),
            i < old(self).done@.len(),
            !old(self).finished,
        ensures
            final(self).inv(),
            final(self).done@ == old(self).done@.update(i as int, true),
            !final(self).finished,
            final(self).reader == old(self).reader,
            final(self).matching.fed() == old(self).matching.fed(),
            final(self).log == old(self).log,
            forall|t: int| t != i ==> #[trigger] final(self).matching.ended(t) == old(self).matching.ended(t),
    {
        self.matching.set_eof(i);
        self.done.set(i, true);
    }

    /// One round: reads a line from each stream that is not done, in order,
    /// and feeds it, without its trailing whitespace, to the matching. A
    /// stream is done once reading it fails or no further line is available
    /// now. When every stream is done, the matchings left are reported,
    /// once. Returns whether every stream is done.
    pub fn run_round(&mut self) -> (r: bool)
        requires
            old(self).inv(),
        ensures
            final(self).inv(),
            r == final(self).all_done(),
            r ==> final(self).is_finished(),
            old(self).is_finished() ==> final(self).is_finished(),
            final(self).num_streams() == old(self).num_streams(),
            final(self).fed().len() == old(self).fed().len(),
            forall|i: int| 0 <= i < old(self).num_streams() && (old(self).is_finished() || old(self).is_done(i)) ==> {
                &&& #[trigger] final(self).fed()[i] == old(self).fed()[i]
                &&& final(self).read_log(i) == old(self).read_log(i)
                &&& final(self).check_log(i) == old(self).check_log(i)
                &&& final(self).is_done(i) == old(self).is_done(i)
            },
            forall|i: int|
                0 <= i < old(self).num_streams() && !old(self).is_finished() && !old(self).is_done(i) ==> #[trigger] round_step(
                    old(self).read_log(i),
                    final(self).read_log(i),
                    old(self).check_log(i),
                    final(self).check_log(i),
                    old(self).fed()[i],
                    final(self).fed()[i],
                    old(self).stream_ended(i),
                    final(self).is_done(i),
                ),
            final(self).feeds() == old(self).feeds() + round_feeds(Self::round_lines(*old(self), *final(self), old(self).num_streams() as int)),
    {
        if self.finished {
            proof {
                assert(Self::round_lines(*old(self), *self, self.num_streams() as int) =~= Seq::new(self.num_streams(), |k: int| None));
                lemma_round_feeds_none(self.num_streams());
                assert(self.log@ =~= self.log@ + Seq::<(usize, Seq<char>)>::empty());
            }
            return true;
        }
        let ghost s0 = *self;
        proof {
            self.matching.lemma_fed_len();
        }
        let n = self.reader.size();
        for i in 0..n
            invariant
                self.inv(),
                !self.finished,
                n == self.done@.len(),
                n == s0.done@.len(),
                n == self.reader.readers@.len(),
                self.matching.fed().len() == s0.matching.fed().len(),
                self.matching.fed().len() == n,
                forall|k: int| i <= k < n ==> #[trigger] self.done@[k] == s0.done@[k],
                forall|k: int| i <= k < n ==> #[trigger] self.matching.ended(k) == s0.matching.ended(k),
                forall|k: int| i <= k < n ==> #[trigger] self.reader.readers@[k] == s0.reader.readers@[k],
                forall|k: int| i <= k < self.matching.fed().len() ==> #[trigger] self.matching.fed()[k] == s0.matching.fed()[k],
                n == s0.reader.readers@.len(),
                forall|k: int| 0 <= k < i && s0.done@[k] ==> #[trigger] self.matching.fed()[k] == s0.matching.fed()[k],
                forall|k: int| 0 <= k < i && s0.done@[k] ==> #[trigger] self.reader.readers@[k] == s0.reader.readers@[k],
                forall|k: int| 0 <= k < i && s0.done@[k] ==> #[trigger] self.done@[k],
                forall|k: int| 0 <= k < i && !s0.done@[k] ==> #[trigger] round_step(
                    s0.reader.readers@[k].read_log(),
                    self.reader.readers@[k].read_log(),
                    s0.reader.readers@[k].check_log(),
                    self.reader.readers@[k].check_log(),
                    s0.matching.fed()[k],
                    self.matching.fed()[k],
                    s0.matching.ended(k),
                    self.done@[k],
                ),
                self.log@ == s0.log@ + round_feeds(Self::round_lines(s0, *self, i as int)),
                !s0.finished,
        {
            let ghost before = *self;
            let ghost mut fed_line: Option<Seq<char>> = None;
            if !self.done[i] {
                match self.reader.read_line(i) {
                    Err(_) => {
                        self.mark_done(i);
                        proof {
                            assert(self.reader.readers@[i as int].read_log().last() == None::<Seq<char>>);
                        }
                    },
                    Ok(line) => {
                        let ghost l = line@;
                        let action = trim_line_end(line.as_str());
                        self.matching.feed(action, i);
                        self.log = Ghost(self.log@.push((i, action@)));
                        let ghost fed_now = self.matching.fed();
                        proof {
                            assert forall|k: int| 0 <= k < self.done@.len() && #[trigger] self.done@[k] implies self.matching.ended(k) by {}
                        }
                        let available = self.reader.is_available(i);
                        match available {
                            Ok(true) => {},
                            _ => {
                                self.mark_done(i);
                            },
                        }
                        proof {
                            assert(self.matching.fed()[i as int] == fed_now[i as int]);
                            assert(!before.matching.ended(i as int) ==> fed_now[i as int] == s0.matching.fed()[i as int].push(trimmed_end(l)));
                            assert(self.reader.readers@[i as int].read_log().last() == Some(l));
                            assert(self.log@ == before.log@.push((i, trimmed_end(l))));
                            fed_line = Some(l);
                        }
                    },
                }
            }
            proof {
                let lb = Self::round_lines(s0, before, i as int);
                let la = Self::round_lines(s0, *self, i + 1);
                assert(la.drop_last() =~= lb) by {
                    assert forall|k: int| 0 <= k < i implies #[trigger] la[k] == lb[k] by {
                        assert(self.reader.readers@[k] == before.reader.readers@[k]);
                    }
                }
                assert(la.len() == i + 1);
                assert(la.last() == fed_line);
                match la.last() {
                    Some(x) => {
                        assert(round_feeds(la) == round_feeds(lb).push((i, trimmed_end(x))));
                        assert(self.log@ == before.log@.push((i, trimmed_end(x))));
                    },
                    None => {
                        assert(round_feeds(la) == round_feeds(lb));
                        assert(self.log@ == before.log@);
                    },
                }
                assert(self.log@ =~= s0.log@ + round_feeds(la));
                assert forall|k: int| 0 <= k < i + 1 && s0.done@[k] implies #[trigger] self.matching.fed()[k] == s0.matching.fed()[k] by {
                    if k < i {
                        assert(before.matching.fed()[k] == s0.matching.fed()[k]);
                    }
                }
                assert forall|k: int| 0 <= k < i + 1 && s0.done@[k] implies #[trigger] self.reader.readers@[k] == s0.reader.readers@[k] by {
                    if k < i {
                        assert(before.reader.readers@[k] == s0.reader.readers@[k]);
                    }
                }
                assert forall|k: int| 0 <= k < i + 1 && s0.done@[k] implies #[trigger] self.done@[k] by {
                    if k < i {
                        assert(before.done@[k]);
                    }
                }
                assert forall|k: int| 0 <= k < i + 1 && !s0.done@[k] implies #[trigger] round_step(
                    s0.reader.readers@[k].read_log(),
                    self.reader.readers@[k].read_log(),
                    s0.reader.readers@[k].check_log(),
                    self.reader.readers@[k].check_log(),
                    s0.matching.fed()[k],
                    self.matching.fed()[k],
                    s0.matching.ended(k),
                    self.done@[k],
                ) by {
                    if k < i {
                        assert(self.matching.fed()[k] == before.matching.fed()[k]);
                        assert(self.reader.readers@[k] == before.reader.readers@[k]);
                        assert(before.done@[k] ==> self.done@[k]);
                        assert(self.done@[k] == before.done@[k]);
                    }
                }
            }
        }
        let ghost after_round = *self;
        proof {
            assert(Self::round_lines(s0, *self, n as int) =~= Self::round_lines(*old(self), *self, old(self).num_streams() as int));
        }
        let mut all = true;
        for i in 0..n
            invariant
                n == self.done@.len(),
                all == forall|k: int| 0 <= k < i ==> #[trigger] self.done@[k],
        {
            if !self.done[i] {
                all = false;
            }
        }
        if all {
            proof {
                assert forall|t: int| 0 <= t < self.matching.tracks() implies #[trigger] self.matching.ended(t) by {
                    assert(self.done@[t]);
                }
            }
            self.matching.consume_remaining();
            self.finished = true;
            proof {
                assert forall|k: int| 0 <= k < self.done@.len() && #[trigger] self.done@[k] implies self.matching.ended(k) by {}
            }
        }
        proof {
            assert(Self::round_lines(*old(self), after_round, n as int) =~= Self::round_lines(*old(self), *self, n as int));
        }
        all
    }
}

/// A round in which no line was read feeds nothing.
proof fn lemma_round_feeds_none(n: nat)
    ensures
        round_feeds(Seq::new(n, |k: int| None)) == Seq::<(usize, Seq<char>)>::empty(),
    decreases n,
{
    if n > 0 {
        lemma_round_feeds_none((n - 1) as nat);
        assert(Seq::new(n, |k: int| None::<Seq<char>>).drop_last() =~= Seq::new((n - 1) as nat, |k: int| None::<Seq<char>>));
    }
}

} // verus!
