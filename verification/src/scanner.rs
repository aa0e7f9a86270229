//! The boundary scanner: a buffered reader that ends at each delimiter.

use vstd::prelude::*;
use crate::source::ByteSource;
use crate::error::DecodeError;
use crate::error::eof;
use crate::pattern::first_match;
use crate::pattern::free_before;
use crate::pattern::has_match;
use crate::pattern::is_front_of;
use crate::pattern::is_rest_before;
use crate::pattern::is_rest_of;
use crate::source::SourceFailure;
use crate::pattern::lemma_line_len;
use crate::pattern::lemma_line_len_empty;
use crate::pattern::lemma_match_extend;
use crate::pattern::lemma_match_skip;
use crate::pattern::lemma_segment_len;
use crate::pattern::lemma_segment_skip;
use crate::pattern::line_len;
use crate::pattern::matches_at;
use crate::pattern::matches_here;
use crate::pattern::segment_len;

verus! {

/// The size of the buffer that `from_reader` gives a reader.
pub const BUF_SIZE: usize = 65536;

/// A reader that yields the bytes of a source up to the next occurrence of
/// a boundary, and can then step over that occurrence.
pub struct BoundaryReader<S> {
    reader: S,
    boundary: Vec<u8>,
    last_search_idx: usize,
    boundary_read: bool,
    buf: Vec<u8>,
    capacity: usize,
    exhausted: bool,
}

impl<S: ByteSource> BoundaryReader<S> {
    /// The bytes that the reader has not handed out or stepped over: those
    /// in its buffer, then those that the source has yet to deliver.
    pub closed spec fn pending(&self) -> Seq<u8> {
        self.buf@ + self.reader.remaining()
    }

    /// The bytes that are held in the buffer.
    pub closed spec fn buffered(&self) -> Seq<u8> {
        self.buf@
    }

    /// The boundary that the reader looks for.
    pub closed spec fn boundary(&self) -> Seq<u8> {
        self.boundary@
    }

    /// The most bytes that the buffer holds.
    pub closed spec fn limit(&self) -> nat {
        self.capacity as nat
    }

    /// The search cursor: how far the buffer has been searched.
    pub closed spec fn scanned(&self) -> int {
        self.last_search_idx as int
    }

    /// Whether the search cursor stands on an occurrence of the boundary.
    pub closed spec fn located(&self) -> bool {
        self.boundary_read
    }

    /// The source that the reader draws from.
    pub closed spec fn source(&self) -> S {
        self.reader
    }

    /// The source has said that it is exhausted.
    pub closed spec fn exhausted(&self) -> bool {
        self.exhausted
    }

    /// The buffer is full, or the source has said that it is exhausted:
    /// nothing can be added to the buffer.
    pub open spec fn filled(&self) -> bool {
        self.buffered().len() == self.limit() || self.exhausted()
    }

    /// The invariant as it stands between a call of the source and
    /// `absorb`: what the invariant asks, with `chunk`, which the source
    /// has just delivered, counted as not yet read; room for `chunk` in
    /// the buffer; and nothing left in the source where `chunk` is empty.
    pub closed spec fn ready_for(&self, chunk: Seq<u8>) -> bool {
        &&& 1 <= self.boundary@.len() <= self.capacity
        &&& self.buf@.len() + chunk.len() <= self.capacity
        &&& self.last_search_idx <= self.buf@.len()
        &&& free_before(
            self.buf@ + chunk + self.reader.remaining(),
            self.boundary@,
            self.last_search_idx as int,
        )
        &&& (self.boundary_read ==> matches_at(
            self.buf@,
            self.boundary@,
            self.last_search_idx as int,
        ))
        &&& (self.exhausted ==> self.reader.remaining().len() == 0)
        &&& (chunk.len() == 0 ==> self.reader.remaining().len() == 0)
    }

    /// The reader's invariant: the buffer keeps its bound, the cursor lies
    /// in it, no occurrence of the boundary begins before the cursor, and
    /// what the flags say is true.
    pub closed spec fn wf(&self) -> bool {
        &&& 1 <= self.boundary@.len() <= self.capacity
        &&& self.buf@.len() <= self.capacity
        &&& self.last_search_idx <= self.buf@.len()
        &&& free_before(self.pending(), self.boundary@, self.last_search_idx as int)
        &&& (self.boundary_read ==> matches_at(
            self.buf@,
            self.boundary@,
            self.last_search_idx as int,
        ))
        &&& (self.exhausted ==> self.reader.remaining().len() == 0)
    }

    /// What the invariant says of the cursor, over the public model.
    pub proof fn lemma_cursor(&self)
        requires
            self.wf(),
        ensures
            0 <= self.scanned() <= self.buffered().len() <= self.limit(),
            self.buffered().len() <= self.pending().len(),
            self.buffered() == self.pending().take(self.buffered().len() as int),
            1 <= self.boundary().len() <= self.limit(),
            free_before(self.pending(), self.boundary(), self.scanned()),
            self.located() ==> first_match(self.pending(), self.boundary(), self.scanned()),
            self.pending() == self.buffered() + self.source().remaining(),
            self.exhausted() ==> self.source().remaining().len() == 0 && self.pending()
                == self.buffered(),
    {
        assert(self.exhausted ==> self.buf@ + self.reader.remaining() =~= self.buf@);
        lemma_match_extend(self.buf@, self.reader.remaining(), self.boundary@, self.scanned());
        assert(self.buf@ =~= self.pending().take(self.buf@.len() as int));
    }

    /// A reader over `reader` with a buffer of `BUF_SIZE` bytes.
    pub fn from_reader(reader: S, boundary: Vec<u8>) -> (r: BoundaryReader<S>)
        requires
            1 <= boundary@.len() <= BUF_SIZE,
        ensures
            r.wf(),
            r.pending() == reader.remaining(),
            r.boundary() == boundary@,
            r.source() == reader,
            r.limit() == BUF_SIZE,
            r.scanned() == 0,
            !r.located(),
            !r.exhausted(),
            r.buffered().len() == 0,
    {
        Self::with_buffer(reader, boundary, BUF_SIZE, Vec::new())
    }

    /// A reader over `reader` whose buffer holds at most `capacity` bytes
    /// and starts with `seed`, which is read before the source's bytes.
    pub fn with_buffer(reader: S, boundary: Vec<u8>, capacity: usize, seed: Vec<u8>) -> (r:
        BoundaryReader<S>)
        requires
            1 <= boundary@.len() <= capacity,
            seed@.len() <= capacity,
        ensures
            r.wf(),
            r.pending() == seed@ + reader.remaining(),
            r.boundary() == boundary@,
            r.source() == reader,
            r.limit() == capacity,
            r.scanned() == 0,
            !r.located(),
            !r.exhausted(),
            r.buffered() == seed@,
    {
        BoundaryReader {
            reader,
            boundary,
            last_search_idx: 0,
            boundary_read: false,
            buf: seed,
            capacity,
            exhausted: false,
        }
    }

    /// `self` is `before` but for its source: buffer, boundary, cursor and
    /// flags are the same.
    pub closed spec fn same_but_source(&self, before: &BoundaryReader<S>) -> bool {
        &&& self.buf == before.buf
        &&& self.boundary == before.boundary
        &&& self.last_search_idx == before.last_search_idx
        &&& self.boundary_read == before.boundary_read
        &&& self.capacity == before.capacity
        &&& self.exhausted == before.exhausted
    }

    /// A reader whose source has delivered `chunk` since the invariant held
    /// is ready to take `chunk` in: `chunk` is the front of what the source
    /// had, fits the free room, and is empty only where the source had
    /// nothing.
    pub proof fn lemma_ready_for(&self, before: &BoundaryReader<S>, chunk: Seq<u8>)
        requires
            before.wf(),
            self.same_but_source(before),
            chunk.len() + before.buffered().len() <= before.limit(),
            chunk.len() <= before.source().remaining().len(),
            chunk == before.source().remaining().take(chunk.len() as int),
            self.source().remaining() == before.source().remaining().skip(chunk.len() as int),
            chunk.len() == 0 ==> before.source().remaining().len() == 0,
        ensures
            self.ready_for(chunk),
            self.buffered() + chunk + self.source().remaining() == before.pending(),
    {
        assert(self.buf@ + chunk + self.reader.remaining() =~= before.buf@
            + before.reader.remaining());
    }

    /// Asks the source for bytes to fill the free room of the buffer, and
    /// returns what the source returned, to be handed to `absorb`.
    pub fn pull_next(&mut self) -> (pulled: Result<Vec<u8>, SourceFailure>)
        requires
            old(self).wf(),
            old(self).buffered().len() < old(self).limit(),
        ensures
            final(self).same_but_source(old(self)),
            final(self).boundary() == old(self).boundary(),
            final(self).limit() == old(self).limit(),
            old(self).source().sound() ==> pulled is Ok && final(self).source().sound(),
            match pulled {
                Ok(chunk) => {
                    &&& final(self).ready_for(chunk@)
                    &&& 0 < chunk@.len() || old(self).source().remaining().len() == 0
                    &&& final(self).buffered() + chunk@ + final(self).source().remaining() == old(
                        self,
                    ).pending()
                },
                Err(_) => final(self).wf() && final(self).pending() == old(self).pending(),
            },
    {
        let room: usize = self.capacity - self.buf.len();
        let pulled = self.reader.pull(room);
        proof {
            if pulled is Ok {
                self.lemma_ready_for(old(self), pulled->Ok_0@);
            }
        }
        pulled
    }

    /// Takes in what a call of the source returned. A failure of the
    /// source becomes the error of the same failure; an empty chunk marks
    /// the source as exhausted; any other chunk goes to the end of the
    /// buffer.
    pub fn absorb(&mut self, pulled: Result<Vec<u8>, SourceFailure>) -> (r: Result<(), DecodeError>)
        requires
            match pulled {
                Ok(chunk) => old(self).ready_for(chunk@),
                Err(_) => old(self).wf(),
            },
        ensures
            final(self).wf(),
            final(self).boundary() == old(self).boundary(),
            final(self).limit() == old(self).limit(),
            final(self).scanned() == old(self).scanned(),
            final(self).located() == old(self).located(),
            final(self).source() == old(self).source(),
            match pulled {
                Ok(chunk) => {
                    &&& r is Ok
                    &&& final(self).buffered() == old(self).buffered() + chunk@
                    &&& final(self).pending() == old(self).buffered() + chunk@ + old(
                        self,
                    ).source().remaining()
                    &&& final(self).exhausted() == (old(self).exhausted() || chunk@.len() == 0)
                },
                Err(f) => {
                    &&& r == Err::<(), DecodeError>(DecodeError::Source(f))
                    &&& final(self).buffered() == old(self).buffered()
                    &&& final(self).pending() == old(self).pending()
                    &&& final(self).exhausted() == old(self).exhausted()
                },
            },
    {
        match pulled {
            Ok(mut chunk) => {
                let ghost before = self.buf@;
                let ghost got = chunk@;
                if chunk.len() == 0 {
                    self.exhausted = true;
                    proof {
                        assert(before + got =~= before);
                    }
                } else {
                    self.buf.append(&mut chunk);
                    proof {
                        lemma_match_extend(before, got, self.boundary@, self.last_search_idx as int);
                    }
                }
                Ok(())
            },
            Err(f) => Err(DecodeError::Source(f)),
        }
    }

    /// Reads from the source until the buffer is full or the source is
    /// exhausted. Nothing is handed out or lost, whatever the source does:
    /// the buffer keeps what it held and grows at its end. Where nothing
    /// can be added, the source is not called; a source that cannot fail
    /// gives Ok.
    pub fn true_fill_buf(&mut self) -> (r: Result<(), DecodeError>)
        requires
            old(self).wf(),
        ensures
            final(self).wf(),
            final(self).pending() == old(self).pending(),
            final(self).boundary() == old(self).boundary(),
            final(self).limit() == old(self).limit(),
            final(self).scanned() == old(self).scanned(),
            final(self).located() == old(self).located(),
            is_front_of(old(self).buffered(), final(self).buffered()),
            old(self).exhausted() ==> final(self).exhausted(),
            old(self).source().sound() ==> r is Ok && final(self).source().sound(),
            old(self).filled() ==> {
                &&& r is Ok
                &&& final(self).buffered() == old(self).buffered()
                &&& final(self).source() == old(self).source()
            },
            match r {
                Ok(_) => final(self).filled(),
                Err(e) => e is Source,
            },
    {
        proof {
            assert(self.buf@.take(self.buf@.len() as int) =~= self.buf@);
        }
        while self.buf.len() < self.capacity && !self.exhausted
            invariant
                self.wf(),
                self.pending() == old(self).pending(),
                self.boundary@ == old(self).boundary@,
                self.capacity == old(self).capacity,
                self.last_search_idx == old(self).last_search_idx,
                self.boundary_read == old(self).boundary_read,
                is_front_of(old(self).buf@, self.buf@),
                old(self).exhausted ==> self.exhausted,
                old(self).reader.sound() ==> self.reader.sound(),
                old(self).filled() ==> self.buf@ == old(self).buf@ && self.reader == old(
                    self,
                ).reader,
            decreases (self.capacity - self.buf@.len()) + (if self.exhausted { 0int } else { 1int }),
        {
            let pulled = self.pull_next();
            let ghost got = pulled;
            match self.absorb(pulled) {
                Ok(_) => {
                    proof {
                        let chunk = got->Ok_0;
                        assert(self.buf@.take(old(self).buf@.len() as int) =~= old(self).buf@);
                    }
                },
                Err(e) => {
                    return Err(e);
                },
            }
        }
        Ok(())
    }

    /// Searches the buffer from the cursor on for the boundary.
    fn scan(&mut self)
        requires
            old(self).wf(),
            !old(self).located(),
            old(self).filled(),
        ensures
            final(self).wf(),
            final(self).pending() == old(self).pending(),
            final(self).buffered() == old(self).buffered(),
            final(self).boundary() == old(self).boundary(),
            final(self).limit() == old(self).limit(),
            final(self).source() == old(self).source(),
            final(self).exhausted() == old(self).exhausted(),
            final(self).scanned() >= old(self).scanned(),
            !final(self).located() ==> final(self).scanned() > 0 || final(self).pending().len() == 0,
    {
        let n: usize = self.buf.len();
        let m: usize = self.boundary.len();
        let mut p: usize = self.last_search_idx;
        let mut found: bool = false;
        while !found && m <= n - p
            invariant
                self == old(self),
                self.wf(),
                n == self.buf@.len(),
                m == self.boundary@.len(),
                old(self).last_search_idx <= p <= n,
                free_before(self.pending(), self.boundary@, p as int),
                found ==> matches_at(self.buf@, self.boundary@, p as int),
            decreases (n - p) + (if found { 0int } else { 1int }),
        {
            if matches_here(&self.buf, &self.boundary, p) {
                found = true;
            } else {
                proof {
                    lemma_match_extend(
                        self.buf@,
                        self.reader.remaining(),
                        self.boundary@,
                        p as int,
                    );
                }
                p += 1;
            }
        }
        if found {
            self.last_search_idx = p;
            self.boundary_read = true;
        } else if self.exhausted {
            proof {
                assert(self.pending() =~= self.buf@);
            }
            self.last_search_idx = n;
        } else {
            self.last_search_idx = p;
        }
    }

    /// Takes the first `amt` bytes out of the buffer and moves the rest to
    /// its start; the cursor moves with them, down to 0 at most.
    fn take_front(&mut self, amt: usize) -> (out: Vec<u8>)
        requires
            amt <= old(self).buf@.len(),
        ensures
            out@ == old(self).buf@.take(amt as int),
            final(self).buf@ == old(self).buf@.skip(amt as int),
            final(self).last_search_idx == if amt <= old(self).last_search_idx {
                old(self).last_search_idx - amt
            } else {
                0
            },
            final(self).reader == old(self).reader,
            final(self).boundary == old(self).boundary,
            final(self).boundary_read == old(self).boundary_read,
            final(self).capacity == old(self).capacity,
            final(self).exhausted == old(self).exhausted,
    {
        let mut rest: Vec<u8> = self.buf.split_off(amt);
        let mut out: Vec<u8> = Vec::new();
        out.append(&mut self.buf);
        self.buf.append(&mut rest);
        self.last_search_idx = if amt <= self.last_search_idx {
            self.last_search_idx - amt
        } else {
            0
        };
        proof {
            assert(out@ =~= old(self).buf@.take(amt as int));
            assert(self.buf@ =~= old(self).buf@.skip(amt as int));
        }
        out
    }

    /// Replaces the boundary. The search starts over from the front of the
    /// buffer.
    pub fn set_boundary(&mut self, boundary: Vec<u8>)
        requires
            old(self).wf(),
            1 <= boundary@.len() <= old(self).limit(),
        ensures
            final(self).wf(),
            final(self).boundary() == boundary@,
            final(self).pending() == old(self).pending(),
            final(self).limit() == old(self).limit(),
            final(self).scanned() == 0,
            !final(self).located(),
    {
        self.boundary = boundary;
        self.last_search_idx = 0;
        self.boundary_read = false;
    }

    /// The source that the reader draws from.
    pub fn borrow_reader(&self) -> (r: &S)
        ensures
            *r == self.source(),
    {
        &self.reader
    }
}

impl<S: ByteSource> BoundaryReader<S> {
    /// Makes sure that the buffer has been searched far enough to read
    /// from it: fills it and searches it, unless the boundary has been
    /// found already. Reports the end of data where the boundary stands at
    /// the front, or where nothing is left at all. The cursor never moves
    /// back and the buffer keeps what it held. Only the source can make
    /// the call fail otherwise: not with the boundary located, the buffer
    /// full or the source exhausted, and never a source that cannot fail.
    pub fn read_to_boundary(&mut self) -> (r: Result<(), DecodeError>)
        requires
            old(self).wf(),
        ensures
            final(self).wf(),
            final(self).pending() == old(self).pending(),
            final(self).boundary() == old(self).boundary(),
            final(self).limit() == old(self).limit(),
            final(self).scanned() >= old(self).scanned(),
            is_front_of(old(self).buffered(), final(self).buffered()),
            old(self).source().sound() ==> final(self).source().sound(),
            old(self).exhausted() ==> final(self).exhausted(),
            old(self).located() || old(self).filled() || old(self).source().sound() ==> !(r matches Err(
                DecodeError::Source(_),
            )),
            old(self).located() ==> {
                &&& final(self).located()
                &&& final(self).scanned() == old(self).scanned()
                &&& final(self).buffered() == old(self).buffered()
                &&& final(self).source() == old(self).source()
                &&& (r is Ok <==> old(self).scanned() > 0)
            },
            match r {
                Ok(_) => {
                    &&& 0 < final(self).scanned() <= final(self).pending().len()
                    &&& free_before(
                        final(self).pending(),
                        final(self).boundary(),
                        final(self).scanned(),
                    )
                },
                Err(DecodeError::EndOfData) => {
                    ||| matches_at(old(self).pending(), old(self).boundary(), 0)
                    ||| old(self).pending().len() == 0
                },
                Err(DecodeError::Source(_)) => true,
                Err(DecodeError::MalformedHeader { .. }) => false,
            },
    {
        proof {
            assert(self.buf@.take(self.buf@.len() as int) =~= self.buf@);
        }
        if !self.boundary_read {
            self.true_fill_buf()?;
            self.scan();
        }
        proof {
            self.lemma_cursor();
        }
        if self.last_search_idx == 0 {
            return eof();
        }
        Ok(())
    }

    /// Hands out up to `max` of the next bytes, none of them from an
    /// occurrence of the boundary. Reports the end of data where the
    /// boundary comes next, or where nothing is left at all. A failure is
    /// the source's, and leaves every byte where it was; there is none
    /// with the boundary located, the buffer full or the source exhausted,
    /// nor from a source that cannot fail.
    pub fn read(&mut self, max: usize) -> (r: Result<Vec<u8>, DecodeError>)
        requires
            old(self).wf(),
        ensures
            final(self).wf(),
            final(self).boundary() == old(self).boundary(),
            final(self).limit() == old(self).limit(),
            old(self).source().sound() ==> final(self).source().sound(),
            old(self).exhausted() ==> final(self).exhausted(),
            old(self).located() || old(self).filled() || old(self).source().sound() ==> !(r matches Err(
                DecodeError::Source(_),
            )),
            old(self).located() ==> final(self).located() && final(self).source() == old(
                self,
            ).source(),
            old(self).located() ==> (r matches Ok(out) ==> out@.len() == vstd::math::min(
                max as int,
                old(self).scanned(),
            )),
            match r {
                Ok(out) => {
                    &&& out@.len() <= max
                    &&& max > 0 ==> out@.len() > 0
                    &&& out@.len() <= old(self).pending().len()
                    &&& out@ == old(self).pending().take(out@.len() as int)
                    &&& final(self).pending() == old(self).pending().skip(out@.len() as int)
                    &&& free_before(old(self).pending(), old(self).boundary(), out@.len() as int)
                    &&& out@.len() <= segment_len(old(self).pending(), old(self).boundary())
                    &&& segment_len(final(self).pending(), old(self).boundary()) == segment_len(
                        old(self).pending(),
                        old(self).boundary(),
                    ) - out@.len()
                    &&& segment_len(old(self).pending(), old(self).boundary()) > 0
                },
                Err(DecodeError::EndOfData) => {
                    &&& final(self).pending() == old(self).pending()
                    &&& segment_len(old(self).pending(), old(self).boundary()) == 0
                    &&& (matches_at(old(self).pending(), old(self).boundary(), 0) || old(
                        self,
                    ).pending().len() == 0)
                },
                Err(DecodeError::Source(_)) => final(self).pending() == old(self).pending(),
                Err(DecodeError::MalformedHeader { .. }) => false,
            },
    {
        proof {
            old(self).lemma_cursor();
        }
        match self.read_to_boundary() {
            Ok(_) => {},
            Err(e) => {
                proof {
                    if e is EndOfData {
                        lemma_segment_len(old(self).pending(), old(self).boundary(), 0);
                    }
                }
                return Err(e);
            },
        }
        let n: usize = if max < self.last_search_idx { max } else { self.last_search_idx };
        proof {
            lemma_segment_skip(old(self).pending(), old(self).boundary(), self.scanned());
            lemma_segment_skip(old(self).pending(), old(self).boundary(), n as int);
        }
        Ok(self.deliver(n))
    }

    /// Takes the first `n` bytes, all of them before the cursor, out of
    /// the buffer.
    fn deliver(&mut self, n: usize) -> (out: Vec<u8>)
        requires
            old(self).wf(),
            n <= old(self).scanned(),
        ensures
            final(self).wf(),
            final(self).boundary() == old(self).boundary(),
            final(self).limit() == old(self).limit(),
            final(self).located() == old(self).located(),
            final(self).scanned() == old(self).scanned() - n,
            out@.len() == n,
            out@ == old(self).pending().take(n as int),
            out@ == old(self).buffered().take(n as int),
            final(self).pending() == old(self).pending().skip(n as int),
            final(self).buffered() == old(self).buffered().skip(n as int),
            final(self).source() == old(self).source(),
            final(self).exhausted() == old(self).exhausted(),
    {
        let ghost mid = *self;
        proof {
            mid.lemma_cursor();
        }
        let out: Vec<u8> = self.take_front(n);
        proof {
            let s = mid.pending();
            let b = mid.boundary@;
            assert(self.pending() =~= s.skip(n as int));
            assert(out@ =~= s.take(n as int));
            assert forall|i: int| 0 <= i < self.last_search_idx implies !matches_at(
                self.pending(),
                b,
                i,
            ) by {
                lemma_match_skip(s, b, n as int, i);
            }
            lemma_match_skip(mid.buf@, b, n as int, self.last_search_idx as int);
        }
        out
    }

    /// Shows the bytes that can be read next without another search: those
    /// that stand in the buffer before the cursor.
    pub fn fill_buf(&mut self) -> (r: Result<&[u8], DecodeError>)
        requires
            old(self).wf(),
        ensures
            final(self).wf(),
            final(self).pending() == old(self).pending(),
            final(self).boundary() == old(self).boundary(),
            final(self).limit() == old(self).limit(),
            final(self).scanned() >= old(self).scanned(),
            is_front_of(old(self).buffered(), final(self).buffered()),
            old(self).source().sound() ==> final(self).source().sound(),
            old(self).exhausted() ==> final(self).exhausted(),
            old(self).located() || old(self).filled() || old(self).source().sound() ==> !(r matches Err(
                DecodeError::Source(_),
            )),
            old(self).located() ==> final(self).located() && final(self).source() == old(
                self,
            ).source(),
            old(self).located() ==> final(self).scanned() == old(self).scanned(),
            match r {
                Ok(bytes) => {
                    &&& 0 < bytes@.len() <= segment_len(old(self).pending(), old(self).boundary())
                    &&& bytes@.len() == final(self).scanned()
                    &&& bytes@ == old(self).pending().take(bytes@.len() as int)
                },
                Err(DecodeError::EndOfData) => segment_len(
                    old(self).pending(),
                    old(self).boundary(),
                ) == 0,
                Err(e) => e is Source,
            },
    {
        proof {
            old(self).lemma_cursor();
        }
        match self.read_to_boundary() {
            Ok(_) => {},
            Err(e) => {
                proof {
                    if e is EndOfData {
                        lemma_segment_len(old(self).pending(), old(self).boundary(), 0);
                    }
                }
                return Err(e);
            },
        }
        proof {
            self.lemma_cursor();
            lemma_segment_skip(self.pending(), self.boundary(), self.scanned());
        }
        let n: usize = self.last_search_idx;
        let bytes: &[u8] = vstd::slice::slice_subrange(self.buf.as_slice(), 0, n);
        proof {
            assert(bytes@ =~= self.pending().take(n as int));
        }
        Ok(bytes)
    }

    /// Drops the first `amt` of the bytes that `fill_buf` showed.
    pub fn consume(&mut self, amt: usize)
        requires
            old(self).wf(),
            amt <= old(self).scanned(),
        ensures
            final(self).wf(),
            final(self).boundary() == old(self).boundary(),
            final(self).limit() == old(self).limit(),
            final(self).located() == old(self).located(),
            final(self).scanned() == old(self).scanned() - amt,
            final(self).pending() == old(self).pending().skip(amt as int),
            final(self).buffered() == old(self).buffered().skip(amt as int),
            final(self).source() == old(self).source(),
    {
        let _ = self.deliver(amt);
    }

    /// Reads all that is left before the next occurrence of the boundary,
    /// or all that is left where there is none.
    pub fn read_segment(&mut self) -> (r: Result<Vec<u8>, DecodeError>)
        requires
            old(self).wf(),
        ensures
            final(self).wf(),
            final(self).boundary() == old(self).boundary(),
            final(self).limit() == old(self).limit(),
            old(self).source().sound() ==> final(self).source().sound(),
            old(self).exhausted() ==> final(self).exhausted(),
            old(self).located() || old(self).exhausted() || old(self).source().sound() ==> !(
            r matches Err(DecodeError::Source(_))),
            old(self).located() ==> final(self).located() && final(self).source() == old(
                self,
            ).source(),
            match r {
                Ok(out) => {
                    &&& out@.len() <= old(self).pending().len()
                    &&& out@ == old(self).pending().take(out@.len() as int)
                    &&& final(self).pending() == old(self).pending().skip(out@.len() as int)
                    &&& free_before(old(self).pending(), old(self).boundary(), out@.len() as int)
                    &&& (matches_at(old(self).pending(), old(self).boundary(), out@.len() as int)
                        || out@.len() == old(self).pending().len())
                    &&& out@.len() == segment_len(old(self).pending(), old(self).boundary())
                },
                Err(e) => e is Source && is_rest_of(final(self).pending(), old(self).pending()),
            },
    {
        let ghost start = self.pending();
        let ghost b = self.boundary@;
        let mut out: Vec<u8> = Vec::new();
        proof {
            assert(start.skip(0) =~= start);
            assert(out@ =~= start.take(0));
        }
        loop
            invariant
                self.wf(),
                self.boundary@ == b,
                b == old(self).boundary(),
                start == old(self).pending(),
                self.capacity == old(self).capacity,
                old(self).reader.sound() ==> self.reader.sound(),
                old(self).boundary_read ==> self.boundary_read && self.reader == old(self).reader,
                old(self).exhausted ==> self.exhausted,
                out@.len() <= start.len(),
                out@ == start.take(out@.len() as int),
                self.pending() == start.skip(out@.len() as int),
                free_before(start, b, out@.len() as int),
            decreases self.pending().len(),
        {
            let ghost k = out@.len() as int;
            proof {
                self.lemma_cursor();
            }
            match self.read(self.capacity) {
                Ok(mut chunk) => {
                    let ghost c = chunk@.len() as int;
                    out.append(&mut chunk);
                    proof {
                        assert(start.skip(k).skip(c) =~= start.skip(k + c));
                        assert(out@ =~= start.take(k + c));
                        assert forall|i: int| 0 <= i < k + c implies !matches_at(start, b, i) by {
                            if i >= k {
                                lemma_match_skip(start, b, k, i - k);
                            }
                        }
                    }
                },
                Err(DecodeError::EndOfData) => {
                    proof {
                        lemma_match_skip(start, b, k, 0);
                        lemma_segment_len(start, b, k);
                    }
                    return Ok(out);
                },
                Err(e) => {
                    return Err(e);
                },
            }
        }
    }

    /// Reads a line: the bytes up to and with the next line feed, or up to
    /// the boundary or the end of the source where those come first.
    /// Reports the end of data where not one byte is left before them.
    pub fn read_line(&mut self) -> (r: Result<Vec<u8>, DecodeError>)
        requires
            old(self).wf(),
        ensures
            final(self).wf(),
            final(self).boundary() == old(self).boundary(),
            final(self).limit() == old(self).limit(),
            old(self).source().sound() ==> final(self).source().sound(),
            old(self).exhausted() ==> final(self).exhausted(),
            old(self).located() || old(self).exhausted() || old(self).source().sound() ==> !(
            r matches Err(DecodeError::Source(_))),
            old(self).located() ==> final(self).located() && final(self).source() == old(
                self,
            ).source(),
            match r {
                Ok(out) => {
                    &&& 0 < out@.len() <= old(self).pending().len()
                    &&& out@ == old(self).pending().take(out@.len() as int)
                    &&& final(self).pending() == old(self).pending().skip(out@.len() as int)
                    &&& free_before(old(self).pending(), old(self).boundary(), out@.len() as int)
                    &&& forall|i: int| 0 <= i < out@.len() - 1 ==> out@[i] != 10u8
                    &&& (out@[out@.len() - 1] == 10u8 || matches_at(
                        old(self).pending(),
                        old(self).boundary(),
                        out@.len() as int,
                    ) || out@.len() == old(self).pending().len())
                    &&& out@.len() == line_len(old(self).pending(), old(self).boundary())
                },
                Err(DecodeError::EndOfData) => {
                    &&& final(self).pending() == old(self).pending()
                    &&& line_len(old(self).pending(), old(self).boundary()) == 0
                },
                Err(e) => e is Source && is_rest_of(final(self).pending(), old(self).pending()),
            },
    {
        let ghost start = self.pending();
        let ghost b = self.boundary@;
        let mut out: Vec<u8> = Vec::new();
        proof {
            assert(start.skip(0) =~= start);
            assert(out@ =~= start.take(0));
        }
        loop
            invariant
                self.wf(),
                self.boundary@ == b,
                b == old(self).boundary(),
                start == old(self).pending(),
                self.capacity == old(self).capacity,
                old(self).reader.sound() ==> self.reader.sound(),
                old(self).boundary_read ==> self.boundary_read && self.reader == old(self).reader,
                old(self).exhausted ==> self.exhausted,
                out@.len() <= start.len(),
                out@ == start.take(out@.len() as int),
                self.pending() == start.skip(out@.len() as int),
                free_before(start, b, out@.len() as int),
                forall|i: int| 0 <= i < out@.len() ==> out@[i] != 10u8,
            decreases self.pending().len(),
        {
            let ghost k = out@.len() as int;
            match self.read_to_boundary() {
                Ok(_) => {},
                Err(DecodeError::EndOfData) => {
                    proof {
                        lemma_match_skip(start, b, k, 0);
                    }
                    if out.len() == 0 {
                        proof {
                            assert(start.skip(0) =~= start);
                            lemma_line_len_empty(start, b);
                        }
                        return eof();
                    }
                    proof {
                        assert forall|i: int| 0 <= i < k implies #[trigger] start[i] == out@[i] by {
                            assert(start.take(k)[i] == start[i]);
                        }
                        lemma_line_len(start, b, k);
                    }
                    return Ok(out);
                },
                Err(e) => {
                    return Err(e);
                },
            }
            let c: usize = self.last_search_idx;
            let mut j: usize = 0;
            proof {
                self.lemma_cursor();
            }
            while j < c && self.buf[j] != 10u8
                invariant
                    self.wf(),
                    c == self.last_search_idx,
                    c <= self.buf@.len(),
                    j <= c,
                    forall|i: int| 0 <= i < j ==> self.buf@[i] != 10u8,
                decreases c - j,
            {
                j += 1;
            }
            let done: bool = j < c;
            let n: usize = if done { j + 1 } else { c };
            let ghost held = self.buf@;
            let mut chunk: Vec<u8> = self.deliver(n);
            let ghost got = chunk@;
            out.append(&mut chunk);
            proof {
                assert(start.skip(k).skip(n as int) =~= start.skip(k + n));
                assert(out@ =~= start.take(k + n));
                assert forall|i: int| 0 <= i < k + n implies !matches_at(start, b, i) by {
                    if i >= k {
                        lemma_match_skip(start, b, k, i - k);
                    }
                }
                assert forall|i: int| 0 <= i < k + n - 1 implies out@[i] != 10u8 by {
                    if i >= k {
                        assert(out@[i] == got[i - k]);
                        assert(got[i - k] == held[i - k]);
                    }
                }
                if done {
                    assert(out@[k + n - 1] == got[n - 1]);
                    assert(got[n - 1] == held[j as int]);
                } else {
                    assert(out@[k + n - 1] == got[n - 1]);
                    assert(got[n - 1] == held[n - 1]);
                }
            }
            if done {
                proof {
                    assert forall|i: int| 0 <= i < k + n implies #[trigger] start[i] == out@[i] by {
                        assert(start.take(k + n)[i] == start[i]);
                    }
                    lemma_line_len(start, b, k + n);
                }
                return Ok(out);
            }
        }
    }

    /// Steps over the next occurrence of the boundary, with everything
    /// before it. Where the source ends before another occurrence, all that
    /// was left is dropped and the end of data is reported. Where the
    /// source fails, only bytes that stand before the next occurrence have
    /// been dropped, and the call can be made again. With the boundary
    /// located the source is not called, and the result is Ok.
    pub fn consume_boundary(&mut self) -> (r: Result<(), DecodeError>)
        requires
            old(self).wf(),
        ensures
            final(self).wf(),
            final(self).boundary() == old(self).boundary(),
            final(self).limit() == old(self).limit(),
            !(r matches Err(DecodeError::Source(_))) ==> {
                &&& final(self).scanned() == 0
                &&& !final(self).located()
            },
            old(self).source().sound() ==> final(self).source().sound(),
            old(self).exhausted() ==> final(self).exhausted(),
            old(self).located() || old(self).exhausted() || old(self).source().sound() ==> !(
            r matches Err(DecodeError::Source(_))),
            old(self).located() ==> r is Ok && final(self).source() == old(self).source(),
            match r {
                Ok(_) => {
                    &&& has_match(old(self).pending(), old(self).boundary())
                    &&& final(self).pending() == old(self).pending().skip(
                        segment_len(old(self).pending(), old(self).boundary()) + old(
                            self,
                        ).boundary().len(),
                    )
                },
                Err(DecodeError::EndOfData) => {
                    &&& !has_match(old(self).pending(), old(self).boundary())
                    &&& final(self).pending().len() == 0
                },
                Err(DecodeError::Source(_)) => is_rest_before(
                    final(self).pending(),
                    old(self).pending(),
                    old(self).boundary(),
                ),
                Err(DecodeError::MalformedHeader { .. }) => false,
            },
    {
        let ghost start = self.pending();
        let ghost b = self.boundary@;
        let ghost mut k: int = 0;
        proof {
            assert(start.skip(0) =~= start);
        }
        while !self.boundary_read
            invariant
                self.wf(),
                self.boundary@ == b,
                b == old(self).boundary(),
                start == old(self).pending(),
                self.capacity == old(self).capacity,
                old(self).reader.sound() ==> self.reader.sound(),
                old(self).boundary_read ==> self.boundary_read && self.reader == old(self).reader,
                old(self).exhausted ==> self.exhausted,
                0 <= k <= start.len(),
                self.pending() == start.skip(k),
                free_before(start, b, k),
            decreases self.pending().len() + (if self.boundary_read { 0int } else { 1int }),
        {
            match self.true_fill_buf() {
                Ok(_) => {},
                Err(e) => {
                    return Err(e);
                },
            }
            self.scan();
            if !self.boundary_read {
                let c: usize = self.last_search_idx;
                let ghost mid = *self;
                proof {
                    mid.lemma_cursor();
                }
                if c == 0 {
                    proof {
                        assert forall|i: int| !matches_at(start, b, i) by {
                            if matches_at(start, b, i) {
                                assert(i < k);
                            }
                        }
                    }
                    return eof();
                }
                let _ = self.take_front(c);
                proof {
                    assert(self.pending() =~= mid.pending().skip(c as int));
                    assert(start.skip(k).skip(c as int) =~= start.skip(k + c));
                    assert forall|i: int| 0 <= i < k + c implies !matches_at(start, b, i) by {
                        if i >= k {
                            lemma_match_skip(start, b, k, i - k);
                        }
                    }
                    k = k + c;
                }
            }
        }
        let ghost mid = *self;
        proof {
            mid.lemma_cursor();
        }
        let c: usize = self.last_search_idx;
        let amt: usize = c + self.boundary.len();
        let _ = self.take_front(amt);
        self.last_search_idx = 0;
        self.boundary_read = false;
        proof {
            assert(self.pending() =~= mid.pending().skip(amt as int));
            assert(start.skip(k).skip(amt as int) =~= start.skip(k + amt));
            lemma_match_skip(start, b, k, c as int);
            assert forall|i: int| 0 <= i < k + c implies !matches_at(start, b, i) by {
                if i >= k {
                    lemma_match_skip(start, b, k, i - k);
                }
            }
            assert(first_match(start, b, k + c));
            lemma_segment_len(start, b, k + c);
        }
        Ok(())
    }
}

} // verus!
