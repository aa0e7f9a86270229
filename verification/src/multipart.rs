//! The part decoder: one part of the body after another.

use vstd::prelude::*;
use crate::error::DecodeError;
use crate::error::HeaderFault;
use crate::error::eof;
use crate::error::line_error;
use crate::header::Disposition;
use crate::header::DispositionView;
use crate::header::content_type_of;
use crate::header::disposition_of;
use crate::pattern::has_match;
use crate::pattern::is_rest_of;
use crate::pattern::lemma_rest_of_rest;
use crate::pattern::line_len;
use crate::pattern::segment_len;
use crate::pattern::free_before;
use crate::pattern::lemma_segment_skip;
use crate::pattern::lemma_segment_bounds;
use crate::header::form_data;
use crate::header::form_data_bytes;
use crate::header::parse_content_disposition;
use crate::header::parse_content_type;
use crate::scanner::BoundaryReader;
use crate::scanner::BUF_SIZE;
use crate::source::ByteSource;

verus! {

/// The boundary that parts are cut at: two dashes, the boundary token and
/// a line break.
pub open spec fn delimiter(token: Seq<u8>) -> Seq<u8> {
    seq![45u8, 45u8] + token + line_break()
}

/// A line break: carriage return and line feed.
pub open spec fn line_break() -> Seq<u8> {
    seq![13u8, 10u8]
}

/// `v` without the line break that it ends with, if it ends with one.
pub open spec fn without_line_break(v: Seq<u8>) -> Seq<u8> {
    if v.len() >= 2 && v[v.len() - 2] == 13u8 && v[v.len() - 1] == 10u8 {
        v.take(v.len() - 2)
    } else {
        v
    }
}

/// Drops the line break that `v` ends with, if it ends with one.
pub fn strip_line_break(v: Vec<u8>) -> (out: Vec<u8>)
    ensures
        out@ == without_line_break(v@),
{
    let mut out: Vec<u8> = v;
    let n: usize = out.len();
    if n >= 2 && out[n - 2] == 13u8 && out[n - 1] == 10u8 {
        out.truncate(n - 2);
    }
    out
}

/// Builds the delimiter for a boundary token.
pub fn make_delimiter(token: &Vec<u8>) -> (d: Vec<u8>)
    ensures
        d@ == delimiter(token@),
{
    let mut d: Vec<u8> = vec![45u8, 45u8];
    let mut i: usize = 0;
    while i < token.len()
        invariant
            i <= token@.len(),
            d@ == seq![45u8, 45u8] + token@.take(i as int),
        decreases token@.len() - i,
    {
        d.push(token[i]);
        proof {
            assert(d@ =~= seq![45u8, 45u8] + token@.take(i + 1));
        }
        i += 1;
    }
    d.push(13u8);
    d.push(10u8);
    proof {
        assert(token@.take(token@.len() as int) =~= token@);
        assert(d@ =~= delimiter(token@));
    }
    d
}

/// Whether two byte strings are the same.
pub fn same_bytes(a: &Vec<u8>, b: &Vec<u8>) -> (r: bool)
    ensures
        r == (a@ == b@),
{
    if a.len() != b.len() {
        return false;
    }
    let mut i: usize = 0;
    while i < a.len()
        invariant
            i <= a@.len(),
            a@.len() == b@.len(),
            forall|k: int| 0 <= k < i ==> a@[k] == b@[k],
        decreases a@.len() - i,
    {
        if a[i] != b[i] {
            return false;
        }
        i += 1;
    }
    proof {
        assert(a@ =~= b@);
    }
    true
}

/// The declared properties of an uploaded file. Its bytes are read from
/// the decoder that returned it, with `read_file`.
#[derive(Debug)]
pub struct MultipartFile {
    /// The file's name, where the part gives one.
    pub filename: Option<Vec<u8>>,
    /// The content type that the part declares.
    pub content_type: Vec<u8>,
}

/// The body of a part.
#[derive(Debug)]
pub enum MultipartField {
    /// A text value, read whole.
    Text(Vec<u8>),
    /// An uploaded file, whose bytes are still to be read.
    File(MultipartFile),
}

/// The body of a part, over sequences.
pub enum FieldView {
    Text(Seq<u8>),
    File { filename: Option<Seq<u8>>, content_type: Seq<u8> },
}

/// What reading one part comes to.
pub enum Step {
    /// A part, with its field name.
    Part { name: Seq<u8>, field: FieldView },
    /// No other part.
    End,
    /// A header line that could not be read.
    Malformed { fault: HeaderFault, line: Seq<u8> },
}

/// What reading one part comes to, and the bytes that are left after it.
pub struct Decoded {
    pub step: Step,
    pub rest: Seq<u8>,
}

/// The first line of `s`, as far as it stands before the delimiter `d`.
pub open spec fn first_line(s: Seq<u8>, d: Seq<u8>) -> Seq<u8> {
    s.take(line_len(s, d))
}

/// What follows the first line of `s`.
pub open spec fn after_line(s: Seq<u8>, d: Seq<u8>) -> Seq<u8> {
    s.skip(line_len(s, d))
}

/// What follows the header lines of a part: for a part with a content
/// type, the properties of a file, whose bytes are left unread behind one
/// more line; for another, the text up to the next delimiter, without the
/// line break that ends it.
pub open spec fn decode_body(s: Seq<u8>, d: Seq<u8>, head: DispositionView) -> Decoded {
    let second = first_line(s, d);
    let s1 = after_line(s, d);
    match content_type_of(second) {
        Some(content_type) => Decoded {
            step: Step::Part {
                name: head.name,
                field: FieldView::File { filename: head.filename, content_type },
            },
            rest: after_line(s1, d),
        },
        None => Decoded {
            step: Step::Part {
                name: head.name,
                field: FieldView::Text(without_line_break(s1.take(segment_len(s1, d)))),
            },
            rest: s1.skip(segment_len(s1, d)),
        },
    }
}

/// What reading one part from the bytes `s` comes to, with parts cut at
/// the delimiter `d`.
///
/// All that stands before the next delimiter is dropped, and where there
/// is no delimiter the body has ended. So it has where nothing follows the
/// delimiter before the next one or the end. The line behind the
/// delimiter is the part's `Content-Disposition` line, of the type
/// `form-data`.
pub open spec fn decode_entry(s: Seq<u8>, d: Seq<u8>) -> Decoded {
    if !has_match(s, d) {
        Decoded { step: Step::End, rest: Seq::empty() }
    } else {
        let s1 = s.skip(segment_len(s, d) + d.len());
        let line = first_line(s1, d);
        let s2 = after_line(s1, d);
        if line.len() == 0 {
            Decoded { step: Step::End, rest: s2 }
        } else {
            match disposition_of(line) {
                Err(fault) => Decoded { step: Step::Malformed { fault, line }, rest: s2 },
                Ok(head) => if head.kind != form_data() {
                    Decoded {
                        step: Step::Malformed { fault: HeaderFault::NotFormData, line },
                        rest: s2,
                    }
                } else {
                    decode_body(s2, d, head)
                },
            }
        }
    }
}

/// What a result of `read_entry` says, over sequences; `None` for a
/// failure of the source, which is no reading of the bytes.
pub open spec fn outcome(r: Result<(Vec<u8>, MultipartField), DecodeError>) -> Option<Step> {
    match r {
        Ok((name, MultipartField::Text(text))) => Some(
            Step::Part { name: name@, field: FieldView::Text(text@) },
        ),
        Ok((name, MultipartField::File(file))) => Some(
            Step::Part {
                name: name@,
                field: FieldView::File {
                    filename: match file.filename {
                        Some(f) => Some(f@),
                        None => None,
                    },
                    content_type: file.content_type@,
                },
            },
        ),
        Err(DecodeError::MalformedHeader { fault, line }) => Some(
            Step::Malformed { fault, line: line@ },
        ),
        Err(DecodeError::EndOfData) => Some(Step::End),
        Err(DecodeError::Source(_)) => None,
    }
}

/// Bytes of a part that were left unread make no difference to the part
/// that is read next: they are dropped with the rest of their part.
pub proof fn lemma_unread_bytes_dropped(s: Seq<u8>, d: Seq<u8>, k: int)
    requires
        d.len() >= 1,
        0 <= k <= s.len(),
        free_before(s, d, k),
    ensures
        decode_entry(s.skip(k), d) == decode_entry(s, d),
{
    lemma_segment_skip(s, d, k);
    lemma_segment_bounds(s, d);
    if has_match(s, d) {
        let seg = segment_len(s, d);
        assert(s.skip(k).skip(seg - k + d.len()) =~= s.skip(seg + d.len()));
    }
}

/// A decoder of one `multipart/form-data` body.
pub struct Multipart<S> {
    source: BoundaryReader<S>,
}

impl<S: ByteSource> Multipart<S> {
    /// The bytes that have not been decoded yet.
    pub closed spec fn pending(&self) -> Seq<u8> {
        self.source.pending()
    }

    /// The delimiter that parts are cut at.
    pub closed spec fn boundary(&self) -> Seq<u8> {
        self.source.boundary()
    }

    /// The decoder's invariant: that of its reader.
    pub closed spec fn wf(&self) -> bool {
        self.source.wf()
    }

    /// A decoder of the body that `reader` delivers, whose parts are
    /// separated by the boundary token `token`.
    pub fn new(reader: S, token: &Vec<u8>) -> (m: Multipart<S>)
        requires
            token@.len() + 4 <= BUF_SIZE,
        ensures
            m.wf(),
            m.boundary() == delimiter(token@),
            m.pending() == reader.remaining(),
            m.reader() == reader,
    {
        Self::with_capacity(reader, token, BUF_SIZE)
    }

    /// As `new`, with a buffer of `capacity` bytes.
    pub fn with_capacity(reader: S, token: &Vec<u8>, capacity: usize) -> (m: Multipart<S>)
        requires
            token@.len() + 4 <= capacity,
        ensures
            m.wf(),
            m.boundary() == delimiter(token@),
            m.pending() == reader.remaining(),
            m.reader() == reader,
    {
        let d: Vec<u8> = make_delimiter(token);
        proof {
            assert(d@.len() == token@.len() + 4);
            assert(Seq::<u8>::empty() + reader.remaining() =~= reader.remaining());
        }
        Multipart { source: BoundaryReader::with_buffer(reader, d, capacity, Vec::new()) }
    }

    /// The source that the decoder draws from.
    pub closed spec fn reader(&self) -> S {
        self.source.source()
    }

    /// The source that the decoder draws from.
    pub fn borrow_reader(&self) -> (r: &S)
        ensures
            *r == self.reader(),
    {
        self.source.borrow_reader()
    }

    /// Reads up to `max` bytes of the body of the file part that
    /// `read_entry` returned last. The end of data is the end of the file.
    /// The bytes are all that stands before the next boundary, the line
    /// break that ends the part among them.
    pub fn read_file(&mut self, max: usize) -> (r: Result<Vec<u8>, DecodeError>)
        requires
            old(self).wf(),
        ensures
            final(self).wf(),
            final(self).boundary() == old(self).boundary(),
            old(self).reader().sound() ==> final(self).reader().sound(),
            old(self).reader().sound() ==> !(r matches Err(DecodeError::Source(_))),
            match r {
                Ok(out) => {
                    &&& out@.len() <= max
                    &&& max > 0 ==> out@.len() > 0
                    &&& out@.len() <= old(self).pending().len()
                    &&& out@ == old(self).pending().take(out@.len() as int)
                    &&& final(self).pending() == old(self).pending().skip(out@.len() as int)
                    &&& free_before(
                        old(self).pending(),
                        old(self).boundary(),
                        out@.len() as int,
                    )
                    &&& out@.len() <= segment_len(old(self).pending(), old(self).boundary())
                    &&& segment_len(final(self).pending(), old(self).boundary()) == segment_len(
                        old(self).pending(),
                        old(self).boundary(),
                    ) - out@.len()
                },
                Err(DecodeError::EndOfData) => {
                    &&& final(self).pending() == old(self).pending()
                    &&& segment_len(old(self).pending(), old(self).boundary()) == 0
                },
                Err(e) => e is Source && final(self).pending() == old(self).pending(),
            },
    {
        self.source.read(max)
    }

    /// Reads the next line of the current part; an empty line where the
    /// part has no other byte.
    fn next_line(&mut self) -> (r: Result<Vec<u8>, DecodeError>)
        requires
            old(self).wf(),
        ensures
            final(self).wf(),
            final(self).boundary() == old(self).boundary(),
            match r {
                Ok(line) => {
                    &&& line@ == first_line(old(self).pending(), old(self).boundary())
                    &&& final(self).pending() == after_line(
                        old(self).pending(),
                        old(self).boundary(),
                    )
                },
                Err(e) => e is Source,
            },
            is_rest_of(final(self).pending(), old(self).pending()),
            old(self).reader().sound() ==> r is Ok && final(self).reader().sound(),
    {
        match self.source.read_line() {
            Ok(line) => Ok(line),
            Err(DecodeError::EndOfData) => {
                let line: Vec<u8> = Vec::new();
                proof {
                    assert(line@ =~= self.pending().take(0));
                    assert(self.pending() =~= self.pending().skip(0));
                    assert(self.pending() == old(self).pending().skip(0));
                }
                Ok(line)
            },
            Err(e) => Err(e),
        }
    }

    /// Reads the next part: its field name, and its text or the properties
    /// of its file. Whatever was left unread of the part before is dropped.
    /// But for a failure of the source, the result and the bytes that are
    /// left are those that `decode_entry` gives; after a failure of the
    /// source, what is left is what was there, less some bytes at its
    /// front.
    pub fn read_entry(&mut self) -> (r: Result<(Vec<u8>, MultipartField), DecodeError>)
        requires
            old(self).wf(),
        ensures
            final(self).wf(),
            final(self).boundary() == old(self).boundary(),
            old(self).reader().sound() ==> final(self).reader().sound(),
            old(self).reader().sound() ==> !(r matches Err(DecodeError::Source(_))),
            !(r matches Err(DecodeError::Source(_))) ==> {
                &&& outcome(r) == Some(
                    decode_entry(old(self).pending(), old(self).boundary()).step,
                )
                &&& final(self).pending() == decode_entry(
                    old(self).pending(),
                    old(self).boundary(),
                ).rest
            },
            r matches Err(DecodeError::Source(_)) ==> is_rest_of(
                final(self).pending(),
                old(self).pending(),
            ),
    {
        let ghost s0 = self.pending();
        match self.source.consume_boundary() {
            Ok(_) => {},
            Err(e) => {
                proof {
                    if e is EndOfData {
                        assert(self.pending() =~= Seq::<u8>::empty());
                    }
                }
                return Err(e);
            },
        }
        let ghost s1 = self.pending();
        proof {
            self.source.lemma_cursor();
            lemma_segment_bounds(s0, self.boundary());
            assert(is_rest_of(s1, s0));
        }
        let line: Vec<u8> = match self.next_line() {
            Ok(line) => line,
            Err(e) => {
                proof {
                    lemma_rest_of_rest(self.pending(), s1, s0);
                }
                return Err(e);
            },
        };
        let ghost s3 = self.pending();
        proof {
            lemma_rest_of_rest(s3, s1, s0);
        }
        if line.len() == 0 {
            return eof();
        }
        let d: Disposition = match parse_content_disposition(&line) {
            Ok(d) => d,
            Err(fault) => {
                return Err(line_error(fault, line));
            },
        };
        let wanted: Vec<u8> = form_data_bytes();
        if !same_bytes(&d.kind, &wanted) {
            return Err(line_error(HeaderFault::NotFormData, line));
        }
        let second: Vec<u8> = match self.next_line() {
            Ok(line) => line,
            Err(e) => {
                proof {
                    lemma_rest_of_rest(self.pending(), s3, s0);
                }
                return Err(e);
            },
        };
        let ghost s4 = self.pending();
        proof {
            lemma_rest_of_rest(s4, s3, s0);
        }
        match parse_content_type(&second) {
            Some(content_type) => {
                match self.next_line() {
                    Ok(_) => {},
                    Err(e) => {
                        proof {
                            lemma_rest_of_rest(self.pending(), s4, s0);
                        }
                        return Err(e);
                    },
                }
                Ok((d.name, MultipartField::File(MultipartFile { filename: d.filename, content_type })))
            },
            None => {
                match self.source.read_segment() {
                    Ok(text) => Ok((d.name, MultipartField::Text(strip_line_break(text)))),
                    Err(e) => {
                        proof {
                            lemma_rest_of_rest(self.pending(), s4, s0);
                        }
                        Err(e)
                    },
                }
            },
        }
    }

    /// Reads the next part, or `None` where the body holds no other part.
    pub fn next_entry(&mut self) -> (r: Result<Option<(Vec<u8>, MultipartField)>, DecodeError>)
        requires
            old(self).wf(),
        ensures
            final(self).wf(),
            final(self).boundary() == old(self).boundary(),
            match r {
                Ok(Some(entry)) => {
                    &&& outcome(Ok(entry)) == Some(
                        decode_entry(old(self).pending(), old(self).boundary()).step,
                    )
                    &&& final(self).pending() == decode_entry(
                        old(self).pending(),
                        old(self).boundary(),
                    ).rest
                },
                Ok(None) => {
                    &&& decode_entry(old(self).pending(), old(self).boundary()).step is End
                    &&& final(self).pending() == decode_entry(
                        old(self).pending(),
                        old(self).boundary(),
                    ).rest
                },
                Err(DecodeError::MalformedHeader { fault, line }) => {
                    &&& decode_entry(old(self).pending(), old(self).boundary()).step == (
                    Step::Malformed { fault, line: line@ })
                    &&& final(self).pending() == decode_entry(
                        old(self).pending(),
                        old(self).boundary(),
                    ).rest
                },
                Err(e) => e is Source && is_rest_of(final(self).pending(), old(self).pending()),
            },
            old(self).reader().sound() ==> final(self).reader().sound(),
            old(self).reader().sound() ==> !(r matches Err(DecodeError::Source(_))),
    {
        match self.read_entry() {
            Ok(entry) => Ok(Some(entry)),
            Err(DecodeError::EndOfData) => Ok(None),
            Err(e) => Err(e),
        }
    }
}

} // verus!
