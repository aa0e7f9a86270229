//! The wire format, written out: what the decoder reads back from a part
//! that was laid out as the format says.

use vstd::prelude::*;
use crate::error::HeaderFault;
use crate::header::DispositionView;
use crate::header::disposition_marker;
use crate::header::filename_marker;
use crate::header::name_marker;
use crate::header::quote;
use crate::header::quoted_after;
use crate::header::semicolon;
use crate::pattern::lemma_find_from_is;
use crate::pattern::lemma_find_from_none;
use crate::multipart::lemma_unread_bytes_dropped;
use crate::pattern::lemma_match_byte;
use crate::header::content_type_marker;
use crate::header::content_type_of;
use crate::header::disposition_of;
use crate::header::drop_spaces;
use crate::header::form_data;
use crate::header::is_space;
use crate::header::skip_spaces;
use crate::header::trimmed;
use crate::multipart::Decoded;
use crate::multipart::FieldView;
use crate::multipart::Step;
use crate::multipart::after_line;
use crate::multipart::decode_body;
use crate::multipart::decode_entry;
use crate::multipart::first_line;
use crate::header::find_param;
use crate::header::lemma_find_param;
use crate::header::lemma_find_param_is;
use crate::header::starts_param;
use crate::multipart::line_break;
use crate::pattern::closed_by;
use crate::pattern::find_from;
use crate::pattern::lemma_line_len;
use crate::pattern::lemma_line_len_empty;
use crate::pattern::lemma_match_skip;
use crate::pattern::lemma_segment_bounds;
use crate::pattern::lemma_split_at_boundary;
use crate::pattern::matches_at;
use crate::pattern::segment_len;

verus! {

/// A header line: it ends with a line feed and holds no other.
pub open spec fn is_line(line: Seq<u8>) -> bool {
    &&& line.len() > 0
    &&& line.last() == 10u8
    &&& forall|i: int| 0 <= i < line.len() - 1 ==> line[i] != 10u8
}

/// The line that declares a content type.
pub open spec fn content_type_line(content_type: Seq<u8>) -> Seq<u8> {
    content_type_marker() + seq![32u8] + content_type + line_break()
}

/// A value that trimming leaves as it is, on one line.
pub open spec fn plain_value(v: Seq<u8>) -> bool {
    &&& v.len() > 0
    &&& !is_space(v[0])
    &&& !is_space(v.last())
    &&& forall|i: int| 0 <= i < v.len() ==> v[i] != 10u8
}

/// A line at the front of a part is read whole, and the rest of the part
/// is left.
pub proof fn lemma_read_line(line: Seq<u8>, more: Seq<u8>, d: Seq<u8>, tail: Seq<u8>)
    requires
        d.len() >= 1,
        is_line(line),
        closed_by(line + more, d),
    ensures
        first_line(line + more + d + tail, d) == line,
        after_line(line + more + d + tail, d) == more + d + tail,
        closed_by(more, d),
{
    let s = line + more + d + tail;
    let n = line.len() as int;
    lemma_split_at_boundary(line + more, d, tail);
    lemma_segment_bounds(s, d);
    assert forall|i: int| 0 <= i < n - 1 implies s[i] != 10u8 by {
        assert(s[i] == line[i]);
    }
    assert(s[n - 1] == line[n - 1]);
    lemma_line_len(s, d, n);
    assert(s.take(n) =~= line);
    assert(s.skip(n) =~= more + d + tail);
    assert forall|i: int| 0 <= i < more.len() implies !matches_at(more + d, d, i) by {
        lemma_match_skip(line + more + d, d, n, i);
        assert((line + more + d).skip(n) =~= more + d);
        assert(line + more + d =~= (line + more) + d);
    }
}

/// A line break is a line that declares no content type.
pub proof fn lemma_line_break()
    ensures
        is_line(line_break()),
        content_type_of(line_break()) is None,
{
    let b = line_break();
    assert(b.len() == 2 && b[0] == 13u8 && b[1] == 10u8);
    assert(content_type_marker().len() == 13);
}

/// A part without a content type gives back its text, byte for byte,
/// without the line break that ends it, where the delimiter does not
/// begin inside it.
pub proof fn lemma_text_body(value: Seq<u8>, d: Seq<u8>, tail: Seq<u8>, head: DispositionView)
    requires
        d.len() >= 1,
        closed_by(line_break() + value + line_break(), d),
    ensures
        decode_body(line_break() + value + line_break() + d + tail, d, head) == (Decoded {
            step: Step::Part { name: head.name, field: FieldView::Text(value) },
            rest: d + tail,
        }),
{
    lemma_line_break();
    let more = value + line_break();
    assert(line_break() + more =~= line_break() + value + line_break());
    assert(line_break() + more + d + tail =~= line_break() + value + line_break() + d + tail);
    lemma_read_line(line_break(), more, d, tail);
    lemma_split_at_boundary(more, d, tail);
    let s1 = more + d + tail;
    assert(s1.take(more.len() as int) =~= more);
    assert(s1.skip(more.len() as int) =~= d + tail);
    assert(line_break().len() == 2 && line_break()[0] == 13u8 && line_break()[1] == 10u8);
    assert(more[more.len() - 2] == 13u8 && more[more.len() - 1] == 10u8);
    assert(more.take(more.len() - 2) =~= value);
}

/// A part that ends with its header, with not one byte before the next
/// delimiter, has the empty text.
pub proof fn lemma_empty_body(d: Seq<u8>, tail: Seq<u8>, head: DispositionView)
    requires
        d.len() >= 1,
    ensures
        decode_body(d + tail, d, head) == (Decoded {
            step: Step::Part { name: head.name, field: FieldView::Text(Seq::empty()) },
            rest: d + tail,
        }),
{
    let s = d + tail;
    assert(s.subrange(0, d.len() as int) =~= d);
    lemma_split_at_boundary(Seq::<u8>::empty(), d, tail);
    assert(Seq::<u8>::empty() + d + tail =~= s);
    lemma_line_len_empty(s, d);
    assert(s.take(0) =~= Seq::<u8>::empty());
    assert(s.skip(0) =~= s);
    assert(content_type_marker().len() == 13);
}

/// The line that declares a content type is read as that content type.
pub proof fn lemma_content_type_line(content_type: Seq<u8>)
    requires
        plain_value(content_type),
    ensures
        is_line(content_type_line(content_type)),
        content_type_of(content_type_line(content_type)) == Some(content_type),
{
    let m = content_type_marker();
    let line = content_type_line(content_type);
    let n = line.len() as int;
    assert(m.len() == 13);
    assert(line_break().len() == 2 && line_break()[0] == 13u8 && line_break()[1] == 10u8);
    assert(forall|i: int| 0 <= i < 13 ==> m[i] != 10u8);
    assert forall|i: int| 0 <= i < n - 1 implies line[i] != 10u8 by {
        if i < 13 {
            assert(line[i] == m[i]);
        } else if i == 13 {
        } else if i < 14 + content_type.len() {
            assert(line[i] == content_type[i - 14]);
        } else {
        }
    }
    assert(line.subrange(0, 13) =~= m);
    assert(line[13] == 32u8);
    assert(line[14] == content_type[0]);
    assert(line[n - 3] == content_type.last());
    assert(line[n - 2] == 13u8);
    assert(line[n - 1] == 10u8);
    assert(skip_spaces(line, 13, n) == 14) by {
        assert(skip_spaces(line, 14, n) == 14);
    }
    assert(drop_spaces(line, 14, n) == n - 2) by {
        assert(drop_spaces(line, 14, n - 2) == n - 2);
        assert(drop_spaces(line, 14, n - 1) == n - 2);
    }
    assert(line.subrange(14, n - 2) =~= content_type);
}

/// A part with a content type gives back the content type, and leaves the
/// file's bytes to be read, up to the delimiter, where the delimiter does
/// not begin inside the part.
pub proof fn lemma_file_body(
    content_type: Seq<u8>,
    bytes: Seq<u8>,
    d: Seq<u8>,
    tail: Seq<u8>,
    head: DispositionView,
)
    requires
        d.len() >= 1,
        plain_value(content_type),
        closed_by(content_type_line(content_type) + line_break() + bytes, d),
    ensures
        decode_body(content_type_line(content_type) + line_break() + bytes + d + tail, d, head) == (
        Decoded {
            step: Step::Part {
                name: head.name,
                field: FieldView::File { filename: head.filename, content_type },
            },
            rest: bytes + d + tail,
        }),
        segment_len(bytes + d + tail, d) == bytes.len(),
        (bytes + d + tail).take(bytes.len() as int) == bytes,
{
    let line = content_type_line(content_type);
    let s = line + line_break() + bytes + d + tail;
    lemma_content_type_line(content_type);
    lemma_line_break();
    assert(line + (line_break() + bytes) =~= line + line_break() + bytes);
    assert(line + (line_break() + bytes) + d + tail =~= s);
    lemma_read_line(line, line_break() + bytes, d, tail);
    lemma_read_line(line_break(), bytes, d, tail);
    lemma_split_at_boundary(bytes, d, tail);
}

/// A part that begins with the delimiter and a disposition line of the
/// type `form-data` is decoded as its header and what follows the header
/// say.
pub proof fn lemma_entry_head(
    line: Seq<u8>,
    more: Seq<u8>,
    d: Seq<u8>,
    tail: Seq<u8>,
    head: DispositionView,
)
    requires
        d.len() >= 1,
        is_line(line),
        disposition_of(line) == Ok::<DispositionView, HeaderFault>(head),
        head.kind == form_data(),
        closed_by(line + more, d),
    ensures
        decode_entry(d + line + more + d + tail, d) == decode_body(more + d + tail, d, head),
{
    let s = d + line + more + d + tail;
    let s1 = line + more + d + tail;
    lemma_split_at_boundary(Seq::<u8>::empty(), d, s1);
    assert(Seq::<u8>::empty() + d + s1 =~= s);
    assert(s.skip(d.len() as int) =~= s1);
    lemma_read_line(line, more, d, tail);
}

/// The start of a disposition line, up to the quote that opens the field
/// name: `Content-Disposition: form-data; name="`.
pub open spec fn disposition_head() -> Seq<u8> {
    seq![67u8, 111u8, 110u8, 116u8, 101u8, 110u8, 116u8, 45u8, 68u8, 105u8, 115u8, 112u8, 111u8, 115u8, 105u8, 116u8, 105u8, 111u8, 110u8, 58u8, 32u8, 102u8, 111u8, 114u8, 109u8, 45u8, 100u8, 97u8, 116u8, 97u8, 59u8, 32u8, 110u8, 97u8, 109u8, 101u8, 61u8, 34u8]
}

/// What a disposition line says of the file's name: nothing, or
/// `; filename="`, the name and a quote.
pub open spec fn file_clause(filename: Option<Seq<u8>>) -> Seq<u8> {
    match filename {
        Some(f) => seq![59u8, 32u8] + filename_marker() + f + quote(),
        None => Seq::empty(),
    }
}

/// The disposition line of a form field.
pub open spec fn disposition_line(name: Seq<u8>, filename: Option<Seq<u8>>) -> Seq<u8> {
    disposition_head() + name + quote() + file_clause(filename) + line_break()
}

/// A name that can stand between quotes on a line: it holds no quote and
/// no line feed.
pub open spec fn quotable(v: Seq<u8>) -> bool {
    forall|i: int| 0 <= i < v.len() ==> v[i] != 34u8 && v[i] != 10u8
}

/// The bytes of the start of a disposition line, as far as reading the
/// line depends on them.
pub proof fn lemma_head_bytes()
    ensures
        disposition_head().len() == 38,
        forall|i: int| 0 <= i < 37 ==> disposition_head()[i] != 34u8,
        forall|i: int| 0 <= i < 38 ==> disposition_head()[i] != 10u8,
        forall|i: int| 20 <= i < 30 ==> disposition_head()[i] != 59u8,
        disposition_head()[31] == 32u8,
        disposition_head()[37] == 34u8,
        disposition_head()[30] == 59u8,
        forall|i: int| 28 <= i < 38 ==> disposition_head()[i] != 102u8,
        disposition_head()[20] == 32u8,
        disposition_head().subrange(0, 20) == disposition_marker(),
        disposition_head().subrange(21, 30) == form_data(),
        disposition_head().subrange(32, 38) == name_marker(),
{
    let h = disposition_head();
    assert(h.len() == 38);
    assert(h.subrange(0, 20) =~= disposition_marker());
    assert(h.subrange(21, 30) =~= form_data());
    assert(h.subrange(32, 38) =~= name_marker());
}

/// Where the bytes of a disposition line stand.
pub open spec fn laid_out(name: Seq<u8>, filename: Option<Seq<u8>>) -> bool {
    let line = disposition_line(name, filename);
    let c = file_clause(filename);
    let q = 38 + name.len();
    &&& line.len() == q + 1 + c.len() + 2
    &&& forall|i: int| 0 <= i < 38 ==> line[i] == disposition_head()[i]
    &&& forall|i: int| 38 <= i < q ==> line[i] == name[i - 38]
    &&& line[q as int] == 34u8
    &&& forall|i: int| 0 <= i < c.len() ==> line[q + 1 + i] == c[i]
    &&& line[line.len() - 2] == 13u8
    &&& line[line.len() - 1] == 10u8
}

/// The bytes of a disposition line stand where its parts put them.
pub proof fn lemma_laid_out(name: Seq<u8>, filename: Option<Seq<u8>>)
    ensures
        laid_out(name, filename),
{
    lemma_head_bytes();
    assert(quote().len() == 1 && quote()[0] == 34u8);
    assert(line_break().len() == 2 && line_break()[0] == 13u8 && line_break()[1] == 10u8);
}

/// The file clause of a disposition line, byte by byte.
pub proof fn lemma_file_clause(f: Seq<u8>)
    ensures
        file_clause(Some(f)).len() == 13 + f.len(),
        file_clause(Some(f))[0] == 59u8,
        file_clause(Some(f))[1] == 32u8,
        forall|i: int| 0 <= i < 10 ==> file_clause(Some(f))[2 + i] == filename_marker()[i],
        forall|i: int| 0 <= i < f.len() ==> file_clause(Some(f))[12 + i] == f[i],
        file_clause(Some(f))[12 + f.len() as int] == 34u8,
{
    assert(filename_marker().len() == 10);
    assert(quote().len() == 1 && quote()[0] == 34u8);
}

/// A disposition line ends with a line feed and holds no other.
pub proof fn lemma_disposition_is_line(name: Seq<u8>, filename: Option<Seq<u8>>)
    requires
        quotable(name),
        filename matches Some(f) ==> quotable(f),
    ensures
        is_line(disposition_line(name, filename)),
{
    let line = disposition_line(name, filename);
    let n = line.len() as int;
    let q: int = 38 + name.len() as int;
    let c = file_clause(filename);
    lemma_laid_out(name, filename);
    lemma_head_bytes();
    assert(forall|i: int| 0 <= i < 10 ==> filename_marker()[i] != 10u8);
    match filename {
        Some(f) => {
            lemma_file_clause(f);
            assert forall|i: int| 0 <= i < n - 1 implies line[i] != 10u8 by {
                if q < i < n - 2 {
                    let k = i - q - 1;
                    assert(line[i] == c[k]);
                    if 2 <= k < 12 {
                        assert(c[k] == filename_marker()[k - 2]);
                    } else if 12 <= k < 12 + f.len() {
                        assert(c[k] == f[k - 12]);
                    }
                }
            }
        },
        None => {
            assert forall|i: int| 0 <= i < n - 1 implies line[i] != 10u8 by {}
        },
    }
}

/// A disposition line gives back its type, `form-data`, and its field
/// name.
pub proof fn lemma_disposition_name(name: Seq<u8>, filename: Option<Seq<u8>>)
    requires
        quotable(name),
    ensures
        find_from(disposition_line(name, filename), disposition_marker(), 0) == 0,
        find_from(disposition_line(name, filename), semicolon(), 20) == 30,
        trimmed(disposition_line(name, filename), 20, 30) == form_data(),
        quoted_after(disposition_line(name, filename), name_marker()) == Some(name),
        find_param(disposition_line(name, filename), name_marker(), 0) == 32,
{
    let h = disposition_head();
    let line = disposition_line(name, filename);
    let q: int = 38 + name.len() as int;
    lemma_laid_out(name, filename);
    lemma_head_bytes();
    assert(semicolon().len() == 1 && semicolon()[0] == 59u8);
    assert(quote().len() == 1 && quote()[0] == 34u8);
    assert(name_marker().len() == 6 && name_marker()[5] == 34u8);
    assert(disposition_marker().len() == 20);
    assert(form_data().len() == 9);
    assert(line.subrange(0, 20) =~= h.subrange(0, 20));
    assert(find_from(line, disposition_marker(), 0) == 0);
    assert forall|j: int| 20 <= j < 30 implies !matches_at(line, semicolon(), j) by {
        lemma_match_byte(line, 59u8, j);
    }
    lemma_match_byte(line, 59u8, 30);
    lemma_find_from_is(line, semicolon(), 20, 30);
    assert(line.subrange(21, 30) =~= h.subrange(21, 30));
    assert(line[21] == form_data()[0]) by {
        assert(h.subrange(21, 30)[0] == h[21]);
    }
    assert(line[29] == form_data()[8]) by {
        assert(h.subrange(21, 30)[8] == h[29]);
    }
    assert(skip_spaces(line, 20, 30) == 21) by {
        assert(skip_spaces(line, 21, 30) == 21);
    }
    assert(drop_spaces(line, 21, 30) == 30);
    assert(line.subrange(32, 38) =~= h.subrange(32, 38));
    assert forall|j: int| 0 <= j < 32 implies !matches_at(line, name_marker(), j) by {
        if matches_at(line, name_marker(), j) {
            assert(line.subrange(j, j + 6)[5] == line[j + 5]);
        }
    }
    assert(starts_param(line, 32)) by {
        assert(line[31] == 32u8 && line[30] == 59u8);
        assert(drop_spaces(line, 0, 31) == 31);
        assert(drop_spaces(line, 0, 32) == 31);
    }
    lemma_find_param_is(line, name_marker(), 0, 32);
    assert forall|j: int| 38 <= j < q implies !matches_at(line, quote(), j) by {
        lemma_match_byte(line, 34u8, j);
    }
    lemma_match_byte(line, 34u8, q);
    lemma_find_from_is(line, quote(), 38, q);
    assert(line.subrange(38, q) =~= name);
}

/// In a disposition line with a file clause, `filename="` occurs first
/// where the clause puts it.
pub proof fn lemma_file_marker_first(name: Seq<u8>, f: Seq<u8>)
    requires
        quotable(name),
        !ends_like_file_clause(name),
    ensures
        matches_at(disposition_line(name, Some(f)), filename_marker(), 41 + name.len() as int),
        forall|j: int|
            0 <= j < 41 + name.len() ==> !(#[trigger] matches_at(
                disposition_line(name, Some(f)),
                filename_marker(),
                j,
            ) && starts_param(disposition_line(name, Some(f)), j)),
{
    let line = disposition_line(name, Some(f));
    let c = file_clause(Some(f));
    let q: int = 38 + name.len() as int;
    let at: int = q + 3;
    lemma_laid_out(name, Some(f));
    lemma_file_clause(f);
    lemma_head_bytes();
    assert(filename_marker().len() == 10 && filename_marker()[0] == 102u8);
    assert(forall|i: int| 0 <= i < 9 ==> filename_marker()[i] != 34u8);
    assert(filename_marker()[9] == 34u8);
    assert(line.subrange(at, at + 10) =~= filename_marker()) by {
        assert forall|k: int| 0 <= k < 10 implies line[at + k] == filename_marker()[k] by {
            assert(line[q + 1 + (2 + k)] == c[2 + k]);
        }
    }
    assert forall|j: int| 0 <= j < at implies !(#[trigger] matches_at(
        line,
        filename_marker(),
        j,
    ) && starts_param(line, j)) by {
        if matches_at(line, filename_marker(), j) && starts_param(line, j) {
            assert(line.subrange(j, j + 10)[9] == line[j + 9]);
            assert(line.subrange(j, j + 10)[0] == line[j]);
            if j + 9 > q {
                let k = j + 9 - q - 1;
                assert(line[q + 1 + k] == c[k]);
                if k >= 2 {
                    assert(c[2 + (k - 2)] == filename_marker()[k - 2]);
                }
            } else if j + 9 == q {
                if j >= 38 {
                    assert forall|k: int| 0 <= k < 9 implies name[name.len() - 9 + k]
                        == filename_marker()[k] by {
                        assert(line.subrange(j, j + 10)[k] == line[j + k]);
                        assert(line[j + k] == name[j + k - 38]);
                    }
                    assert(name.subrange(name.len() - 9, name.len() as int)
                        =~= filename_marker().take(9));
                    assert forall|k: int| 0 <= k < name.len() implies line[38 + k] == name[k] by {}
                    assert(line[37] == 34u8);
                    lemma_drop_spaces_shift(line, name, 38, j - 38);
                    let dn = drop_spaces(name, 0, j - 38);
                    if dn > 0 {
                        assert(line[38 + (dn - 1)] == name[dn - 1]);
                    }
                    assert(starts_param(name, j - 38));
                    assert(false);
                }
            } else if j + 9 >= 38 {
                assert(line[j + 9] == name[j + 9 - 38]);
            }
        }
    }
}

/// In a disposition line with a file clause, the value of the clause is
/// the file's name.
pub proof fn lemma_file_value(name: Seq<u8>, f: Seq<u8>)
    requires
        quotable(f),
    ensures
        find_from(disposition_line(name, Some(f)), quote(), 51 + name.len() as int) == 51
            + name.len() + f.len(),
        disposition_line(name, Some(f)).subrange(
            51 + name.len() as int,
            51 + name.len() as int + f.len() as int,
        ) == f,
        starts_param(disposition_line(name, Some(f)), 41 + name.len() as int),
{
    let line = disposition_line(name, Some(f));
    let c = file_clause(Some(f));
    let q: int = 38 + name.len() as int;
    let at: int = q + 3;
    let start: int = at + 10;
    let end: int = start + f.len() as int;
    lemma_laid_out(name, Some(f));
    lemma_file_clause(f);
    assert(quote().len() == 1 && quote()[0] == 34u8);
    assert(starts_param(line, at)) by {
        assert(line[q + 1 + 0] == c[0] && line[q + 1 + 1] == c[1]);
        assert(drop_spaces(line, 0, at - 1) == at - 1);
        assert(drop_spaces(line, 0, at) == at - 1);
    }
    assert forall|j: int| start <= j < end implies !matches_at(line, quote(), j) by {
        lemma_match_byte(line, 34u8, j);
        assert(line[q + 1 + (12 + (j - start))] == c[12 + (j - start)]);
    }
    lemma_match_byte(line, 34u8, end);
    assert(line[q + 1 + (12 + f.len() as int)] == c[12 + f.len() as int]);
    lemma_find_from_is(line, quote(), start, end);
    assert(line.subrange(start, end) =~= f) by {
        assert forall|k: int| 0 <= k < f.len() implies line[start + k] == f[k] by {
            assert(line[q + 1 + (12 + k)] == c[12 + k]);
        }
    }
}

/// A disposition line with a file clause gives back the file's name.
pub proof fn lemma_disposition_file(name: Seq<u8>, f: Seq<u8>)
    requires
        quotable(name),
        quotable(f),
        !ends_like_file_clause(name),
    ensures
        quoted_after(disposition_line(name, Some(f)), filename_marker()) == Some(f),
{
    let line = disposition_line(name, Some(f));
    lemma_file_marker_first(name, f);
    lemma_file_value(name, f);
    assert(filename_marker().len() == 10);
    lemma_find_param_is(line, filename_marker(), 0, 41 + name.len() as int);
}

/// A disposition line without a file clause gives no file name.
pub proof fn lemma_disposition_no_file(name: Seq<u8>)
    requires
        quotable(name),
    ensures
        quoted_after(disposition_line(name, None), filename_marker()) is None,
{
    let line = disposition_line(name, None);
    let n = line.len() as int;
    let q: int = 38 + name.len() as int;
    lemma_laid_out(name, None);
    lemma_head_bytes();
    assert(quote().len() == 1 && quote()[0] == 34u8);
    assert(filename_marker().len() == 10 && filename_marker()[9] == 34u8 && filename_marker()[0]
        == 102u8);
    assert(n == q + 3);
    let r = find_param(line, filename_marker(), 0);
    lemma_find_param(line, filename_marker(), 0);
    if r >= 0 {
        assert(line.subrange(r, r + 10)[9] == line[r + 9]);
        assert(line.subrange(r, r + 10)[0] == line[r]);
        assert(r + 9 == q);
        assert forall|j: int| r + 10 <= j implies !matches_at(line, quote(), j) by {
            lemma_match_byte(line, 34u8, j);
        }
        lemma_find_from_none(line, quote(), r + 10);
    }
}

/// `v` ends with a `;`, spaces if any, and `filename=`.
pub open spec fn ends_like_file_clause(v: Seq<u8>) -> bool {
    &&& v.len() >= 9
    &&& v.subrange(v.len() - 9, v.len() as int) == filename_marker().take(9)
    &&& starts_param(v, v.len() - 9)
}

/// Inside a value that stands behind a byte that is no space, the spaces
/// before an index are those of the value.
pub proof fn lemma_drop_spaces_shift(line: Seq<u8>, v: Seq<u8>, at: int, m: int)
    requires
        0 < at,
        at + v.len() <= line.len(),
        forall|k: int| 0 <= k < v.len() ==> line[at + k] == v[k],
        !is_space(line[at - 1]),
        0 <= m <= v.len(),
    ensures
        0 <= drop_spaces(v, 0, m) <= m,
        drop_spaces(line, 0, at + m) == at + drop_spaces(v, 0, m),
    decreases m,
{
    if m > 0 {
        assert(line[at + (m - 1)] == v[m - 1]);
        if is_space(v[m - 1]) {
            lemma_drop_spaces_shift(line, v, at, m - 1);
        }
    }
}

/// A disposition line that was laid out from a field name and a file name
/// is read back as those, with the type `form-data`. A field name that
/// ends with `;`, spaces if any, and `filename=` is left out where a file
/// name follows: with the quote that closes it, it reads as the opening
/// of a file name.
pub proof fn lemma_disposition_line(name: Seq<u8>, filename: Option<Seq<u8>>)
    requires
        quotable(name),
        filename matches Some(f) ==> quotable(f) && !ends_like_file_clause(name),
    ensures
        is_line(disposition_line(name, filename)),
        disposition_of(disposition_line(name, filename)) == Ok::<DispositionView, HeaderFault>(
            DispositionView { kind: form_data(), name, filename },
        ),
{
    lemma_disposition_is_line(name, filename);
    lemma_disposition_name(name, filename);
    assert(disposition_marker().len() == 20);
    match filename {
        Some(f) => {
            lemma_disposition_file(name, f);
        },
        None => {
            lemma_disposition_no_file(name);
        },
    }
}

/// A text part that was laid out as the format says is read back: its
/// field name and its text, byte for byte, where the delimiter does not
/// begin inside the part.
pub proof fn lemma_text_round_trip(name: Seq<u8>, value: Seq<u8>, d: Seq<u8>, tail: Seq<u8>)
    requires
        d.len() >= 1,
        quotable(name),
        closed_by(disposition_line(name, None) + line_break() + value + line_break(), d),
    ensures
        decode_entry(
            d + disposition_line(name, None) + line_break() + value + line_break() + d + tail,
            d,
        ) == (Decoded {
            step: Step::Part { name, field: FieldView::Text(value) },
            rest: d + tail,
        }),
{
    let line = disposition_line(name, None);
    let head = DispositionView { kind: form_data(), name, filename: None };
    lemma_disposition_line(name, None);
    let more = line_break() + value + line_break();
    assert(line + more =~= line + line_break() + value + line_break());
    assert(d + line + more + d + tail =~= d + line + line_break() + value + line_break() + d
        + tail);
    lemma_entry_head(line, more, d, tail, head);
    lemma_read_line(line, more, d, tail);
    lemma_text_body(value, d, tail, head);
}

/// A file part that was laid out as the format says is read back: its
/// field name, file name and content type, and then its bytes, up to the
/// delimiter, where the delimiter does not begin inside the part and the
/// field name does not end with `filename=`.
pub proof fn lemma_file_round_trip(
    name: Seq<u8>,
    filename: Seq<u8>,
    content_type: Seq<u8>,
    bytes: Seq<u8>,
    d: Seq<u8>,
    tail: Seq<u8>,
)
    requires
        d.len() >= 1,
        quotable(name),
        !ends_like_file_clause(name),
        quotable(filename),
        plain_value(content_type),
        closed_by(
            disposition_line(name, Some(filename)) + content_type_line(content_type)
                + line_break() + bytes,
            d,
        ),
    ensures
        decode_entry(
            d + disposition_line(name, Some(filename)) + content_type_line(content_type)
                + line_break() + bytes + d + tail,
            d,
        ) == (Decoded {
            step: Step::Part {
                name,
                field: FieldView::File { filename: Some(filename), content_type },
            },
            rest: bytes + d + tail,
        }),
        segment_len(bytes + d + tail, d) == bytes.len(),
        (bytes + d + tail).take(bytes.len() as int) == bytes,
{
    let line = disposition_line(name, Some(filename));
    let head = DispositionView { kind: form_data(), name, filename: Some(filename) };
    lemma_disposition_line(name, Some(filename));
    let more = content_type_line(content_type) + line_break() + bytes;
    assert(line + more =~= line + content_type_line(content_type) + line_break() + bytes);
    assert(d + line + more + d + tail =~= d + line + content_type_line(content_type)
        + line_break() + bytes + d + tail);
    lemma_entry_head(line, more, d, tail, head);
    lemma_read_line(line, more, d, tail);
    lemma_file_body(content_type, bytes, d, tail, head);
}

/// A part of a body, as it is before it is laid out.
pub enum Part {
    Text { name: Seq<u8>, value: Seq<u8> },
    File { name: Seq<u8>, filename: Seq<u8>, content_type: Seq<u8>, bytes: Seq<u8> },
}

/// What stands between the delimiter before a part and the one after it.
pub open spec fn part_bytes(p: Part) -> Seq<u8> {
    match p {
        Part::Text { name, value } => disposition_line(name, None) + line_break() + value
            + line_break(),
        Part::File { name, filename, content_type, bytes } => disposition_line(
            name,
            Some(filename),
        ) + content_type_line(content_type) + line_break() + (bytes + line_break()),
    }
}

/// A part that can be laid out and read back: its names can stand in
/// quotes, its content type on a line, and the delimiter does not begin
/// inside it.
pub open spec fn well_laid(p: Part, d: Seq<u8>) -> bool {
    &&& closed_by(part_bytes(p), d)
    &&& match p {
        Part::Text { name, value } => quotable(name),
        Part::File { name, filename, content_type, bytes } => {
            &&& quotable(name)
            &&& !ends_like_file_clause(name)
            &&& quotable(filename)
            &&& plain_value(content_type)
        },
    }
}

/// What the decoder is to give for a part.
pub open spec fn step_of(p: Part) -> Step {
    match p {
        Part::Text { name, value } => Step::Part { name, field: FieldView::Text(value) },
        Part::File { name, filename, content_type, bytes } => Step::Part {
            name,
            field: FieldView::File { filename: Some(filename), content_type },
        },
    }
}

/// A body without its first delimiter: the parts, each with a delimiter
/// behind it, and then `end`.
pub open spec fn body_after(parts: Seq<Part>, d: Seq<u8>, end: Seq<u8>) -> Seq<u8>
    decreases parts.len(),
{
    if parts.len() == 0 {
        end
    } else {
        part_bytes(parts[0]) + d + body_after(parts.skip(1), d, end)
    }
}

/// A body: a delimiter before each part and one behind the last, and then
/// `end`.
pub open spec fn body(parts: Seq<Part>, d: Seq<u8>, end: Seq<u8>) -> Seq<u8> {
    d + body_after(parts, d, end)
}

/// What `n` calls of the decoder give, one after the other.
pub open spec fn decode_all(s: Seq<u8>, d: Seq<u8>, n: nat) -> Seq<Step>
    decreases n,
{
    if n == 0 {
        Seq::empty()
    } else {
        seq![decode_entry(s, d).step] + decode_all(decode_entry(s, d).rest, d, (n - 1) as nat)
    }
}

/// The first part of a body is read back as it was laid out, and the part
/// after it is read next, whether the bytes of a file were read or not. A
/// file's bytes are left to be read with the line break that ends the
/// part behind them.
pub proof fn lemma_first_part(parts: Seq<Part>, d: Seq<u8>, end: Seq<u8>)
    requires
        d.len() >= 1,
        parts.len() > 0,
        well_laid(parts[0], d),
    ensures
        decode_entry(body(parts, d, end), d).step == step_of(parts[0]),
        decode_entry(decode_entry(body(parts, d, end), d).rest, d) == decode_entry(
            body(parts.skip(1), d, end),
            d,
        ),
        parts[0] matches Part::File { name, filename, content_type, bytes } ==> {
            &&& decode_entry(body(parts, d, end), d).rest == bytes + line_break() + body(
                parts.skip(1),
                d,
                end,
            )
            &&& segment_len(bytes + line_break() + body(parts.skip(1), d, end), d) == bytes.len()
                + 2
        },
{
    let tail = body_after(parts.skip(1), d, end);
    let s = body(parts, d, end);
    let next = body(parts.skip(1), d, end);
    match parts[0] {
        Part::Text { name, value } => {
            lemma_text_round_trip(name, value, d, tail);
            assert(s =~= d + disposition_line(name, None) + line_break() + value + line_break()
                + d + tail);
        },
        Part::File { name, filename, content_type, bytes } => {
            let held = bytes + line_break();
            lemma_file_round_trip(name, filename, content_type, held, d, tail);
            assert(s =~= d + disposition_line(name, Some(filename)) + content_type_line(
                content_type,
            ) + line_break() + held + d + tail);
            let rest = held + d + tail;
            assert(rest =~= held + next);
            lemma_segment_bounds(rest, d);
            lemma_unread_bytes_dropped(rest, d, held.len() as int);
            assert(rest.skip(held.len() as int) =~= next);
        },
    }
}

/// A body that was laid out from parts is read back as those parts, in
/// their order: names, texts, file names and content types as they were.
pub proof fn lemma_round_trip(parts: Seq<Part>, d: Seq<u8>, end: Seq<u8>)
    requires
        d.len() >= 1,
        forall|i: int| 0 <= i < parts.len() ==> well_laid(#[trigger] parts[i], d),
    ensures
        decode_all(body(parts, d, end), d, parts.len()) == Seq::new(
            parts.len(),
            |i: int| step_of(parts[i]),
        ),
    decreases parts.len(),
{
    let want = Seq::new(parts.len(), |i: int| step_of(parts[i]));
    if parts.len() == 0 {
        assert(decode_all(body(parts, d, end), d, 0) =~= want);
    } else {
        let later = parts.skip(1);
        let s = body(parts, d, end);
        lemma_first_part(parts, d, end);
        assert forall|i: int| 0 <= i < later.len() implies well_laid(#[trigger] later[i], d) by {
            assert(later[i] == parts[i + 1]);
        }
        lemma_round_trip(later, d, end);
        let n = later.len();
        lemma_decode_all_same(decode_entry(s, d).rest, body(later, d, end), d, n);
        assert(decode_all(s, d, parts.len()) =~= want) by {
            assert forall|i: int| 0 <= i < later.len() implies later[i] == parts[i + 1] by {}
        }
    }
}

/// What a run of calls gives depends on the bytes only through what the
/// first call gives.
pub proof fn lemma_decode_all_same(s: Seq<u8>, t: Seq<u8>, d: Seq<u8>, n: nat)
    requires
        decode_entry(s, d) == decode_entry(t, d),
    ensures
        decode_all(s, d, n) == decode_all(t, d, n),
{
}

} // verus!
