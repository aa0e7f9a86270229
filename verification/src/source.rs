//! Byte sources: where the bytes of a body come from.

use vstd::prelude::*;

verus! {

/// Why a byte source could not deliver: the kind of the failure, as the
/// source numbers it.
#[derive(Clone, Copy, Debug, PartialEq, Eq, Structural)]
pub struct SourceFailure {
    pub kind: u32,
}

/// A blocking source of bytes.
///
/// The model of a source is the sequence of bytes that it has yet to
/// deliver. A call of `pull` hands out a prefix of that sequence; an empty
/// answer to a request for at least one byte says that nothing is left.
pub trait ByteSource {
    /// The bytes that the source has not delivered yet. Each source
    /// states its own; one that states none is taken to hold nothing.
    open spec fn remaining(&self) -> Seq<u8> {
        Seq::empty()
    }

    /// The source cannot fail: every call of `pull` delivers. Each source
    /// states its own; one that states none is taken to be able to fail.
    open spec fn sound(&self) -> bool {
        false
    }

    /// Delivers up to `max` of the next bytes. A source that cannot fail
    /// delivers, and still cannot fail afterwards.
    fn pull(&mut self, max: usize) -> (r: Result<Vec<u8>, SourceFailure>)
        ensures
            old(self).sound() ==> r is Ok && final(self).sound(),
            match r {
                Ok(chunk) => {
                    &&& chunk@.len() <= max
                    &&& chunk@.len() <= old(self).remaining().len()
                    &&& chunk@ == old(self).remaining().take(chunk@.len() as int)
                    &&& final(self).remaining() == old(self).remaining().skip(chunk@.len() as int)
                    &&& (chunk@.len() == 0 ==> max == 0 || old(self).remaining().len() == 0)
                },
                Err(_) => final(self).remaining() == old(self).remaining(),
            },
    ;
}

/// A source over bytes held in memory, which delivers at most `step` bytes
/// per call.
pub struct SliceSource {
    data: Vec<u8>,
    pos: usize,
    step: usize,
}

impl SliceSource {
    /// The position is inside the data and a call can deliver something.
    pub closed spec fn wf(&self) -> bool {
        self.pos <= self.data@.len() && self.step >= 1
    }

    /// The most bytes that one call delivers.
    pub closed spec fn step(&self) -> nat {
        if self.step == 0 {
            1
        } else {
            self.step as nat
        }
    }

    /// A source that delivers `data`, at most `step` bytes at a time; a
    /// `step` of 0 counts as 1.
    pub fn new(data: Vec<u8>, step: usize) -> (s: SliceSource)
        ensures
            s.wf(),
            s.remaining() == data@,
            s.total() == data@.len(),
            s.step() == if step == 0 {
                1
            } else {
                step as nat
            },
    {
        let step: usize = if step == 0 { 1 } else { step };
        SliceSource { data, pos: 0, step }
    }

    /// How many bytes have been delivered so far.
    pub fn position(&self) -> (p: usize)
        ensures
            self.wf() ==> p + self.remaining().len() == self.total(),
    {
        self.pos
    }

    /// The length of the data that the source was made with.
    pub closed spec fn total(&self) -> nat {
        self.data@.len()
    }
}

impl ByteSource for SliceSource {
    open spec fn sound(&self) -> bool {
        true
    }

    closed spec fn remaining(&self) -> Seq<u8> {
        if self.pos <= self.data@.len() {
            self.data@.skip(self.pos as int)
        } else {
            Seq::empty()
        }
    }

    fn pull(&mut self, max: usize) -> (r: Result<Vec<u8>, SourceFailure>)
        ensures
            old(self).wf() ==> final(self).wf(),
            final(self).step() == old(self).step(),
            final(self).total() == old(self).total(),
            r matches Ok(chunk) && chunk@.len() == vstd::math::min(
                vstd::math::min(max as int, old(self).step() as int),
                old(self).remaining().len() as int,
            ),
    {
        let mut out: Vec<u8> = Vec::new();
        let len: usize = self.data.len();
        if self.pos >= len {
            proof {
                assert(out@ =~= old(self).remaining().take(0));
                assert(self.remaining() =~= old(self).remaining().skip(0));
            }
            return Ok(out);
        }
        let left: usize = len - self.pos;
        let step: usize = if self.step == 0 { 1 } else { self.step };
        let want: usize = if max < step { max } else { step };
        let n: usize = if want < left { want } else { left };
        let start: usize = self.pos;
        let mut i: usize = 0;
        while i < n
            invariant
                i <= n,
                start + n <= len,
                len == self.data@.len(),
                start == self.pos,
                *self == *old(self),
                out@ == self.data@.subrange(start as int, start + i),
            decreases n - i,
        {
            out.push(self.data[start + i]);
            i += 1;
        }
        self.pos = start + n;
        proof {
            assert(out@ =~= old(self).remaining().take(n as int));
            assert(self.remaining() =~= old(self).remaining().skip(n as int));
        }
        Ok(out)
    }
}

} // verus!
