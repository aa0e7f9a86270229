//! The header lines of a part.

use vstd::prelude::*;
use crate::error::HeaderFault;
use crate::pattern::find_bytes;
use crate::pattern::find_from;
use crate::pattern::lemma_find_from;
use crate::pattern::matches_at;
use crate::pattern::matches_here;

verus! {

/// The header name `Content-Disposition:`.
pub open spec fn disposition_marker() -> Seq<u8> {
    seq![67u8, 111u8, 110u8, 116u8, 101u8, 110u8, 116u8, 45u8, 68u8, 105u8, 115u8, 112u8, 111u8, 115u8, 105u8, 116u8, 105u8, 111u8, 110u8, 58u8]
}

/// The header name `Content-Disposition:`.
pub fn disposition_marker_bytes() -> (v: Vec<u8>)
    ensures
        v@ == disposition_marker(),
{
    let v: Vec<u8> = vec![67u8, 111u8, 110u8, 116u8, 101u8, 110u8, 116u8, 45u8, 68u8, 105u8, 115u8, 112u8, 111u8, 115u8, 105u8, 116u8, 105u8, 111u8, 110u8, 58u8];
    proof {
        assert(v@ =~= disposition_marker());
    }
    v
}

/// The opening of a field name, `name="`.
pub open spec fn name_marker() -> Seq<u8> {
    seq![110u8, 97u8, 109u8, 101u8, 61u8, 34u8]
}

/// The opening of a field name, `name="`.
pub fn name_marker_bytes() -> (v: Vec<u8>)
    ensures
        v@ == name_marker(),
{
    let v: Vec<u8> = vec![110u8, 97u8, 109u8, 101u8, 61u8, 34u8];
    proof {
        assert(v@ =~= name_marker());
    }
    v
}

/// The opening of a file name, `filename="`.
pub open spec fn filename_marker() -> Seq<u8> {
    seq![102u8, 105u8, 108u8, 101u8, 110u8, 97u8, 109u8, 101u8, 61u8, 34u8]
}

/// The opening of a file name, `filename="`.
pub fn filename_marker_bytes() -> (v: Vec<u8>)
    ensures
        v@ == filename_marker(),
{
    let v: Vec<u8> = vec![102u8, 105u8, 108u8, 101u8, 110u8, 97u8, 109u8, 101u8, 61u8, 34u8];
    proof {
        assert(v@ =~= filename_marker());
    }
    v
}

/// The header name `Content-Type:`.
pub open spec fn content_type_marker() -> Seq<u8> {
    seq![67u8, 111u8, 110u8, 116u8, 101u8, 110u8, 116u8, 45u8, 84u8, 121u8, 112u8, 101u8, 58u8]
}

/// The header name `Content-Type:`.
pub fn content_type_marker_bytes() -> (v: Vec<u8>)
    ensures
        v@ == content_type_marker(),
{
    let v: Vec<u8> = vec![67u8, 111u8, 110u8, 116u8, 101u8, 110u8, 116u8, 45u8, 84u8, 121u8, 112u8, 101u8, 58u8];
    proof {
        assert(v@ =~= content_type_marker());
    }
    v
}

/// The disposition type of a form field, `form-data`.
pub open spec fn form_data() -> Seq<u8> {
    seq![102u8, 111u8, 114u8, 109u8, 45u8, 100u8, 97u8, 116u8, 97u8]
}

/// The disposition type of a form field, `form-data`.
pub fn form_data_bytes() -> (v: Vec<u8>)
    ensures
        v@ == form_data(),
{
    let v: Vec<u8> = vec![102u8, 111u8, 114u8, 109u8, 45u8, 100u8, 97u8, 116u8, 97u8];
    proof {
        assert(v@ =~= form_data());
    }
    v
}

/// The white space of ASCII: space, tab, line feed, vertical tab, form
/// feed and carriage return. These are the bytes that trimming a line
/// drops.
pub open spec fn is_space(b: u8) -> bool {
    b == 32 || (9 <= b && b <= 13)
}

/// The first index in `lo..hi` that holds no space, or `hi`.
pub open spec fn skip_spaces(s: Seq<u8>, lo: int, hi: int) -> int
    decreases hi - lo,
{
    if 0 <= lo < hi <= s.len() && is_space(s[lo]) {
        skip_spaces(s, lo + 1, hi)
    } else {
        lo
    }
}

/// The end of `lo..hi` without the spaces that it ends with.
pub open spec fn drop_spaces(s: Seq<u8>, lo: int, hi: int) -> int
    decreases hi - lo,
{
    if 0 <= lo < hi <= s.len() && is_space(s[hi - 1]) {
        drop_spaces(s, lo, hi - 1)
    } else {
        hi
    }
}

/// The bytes of `s` in `lo..hi` without the spaces at either end.
pub open spec fn trimmed(s: Seq<u8>, lo: int, hi: int) -> Seq<u8> {
    let a = skip_spaces(s, lo, hi);
    s.subrange(a, drop_spaces(s, a, hi))
}

/// Copies the bytes of `v` in `lo..hi`.
pub fn copy_range(v: &Vec<u8>, lo: usize, hi: usize) -> (out: Vec<u8>)
    requires
        lo <= hi <= v@.len(),
    ensures
        out@ == v@.subrange(lo as int, hi as int),
{
    let mut out: Vec<u8> = Vec::new();
    let mut i: usize = lo;
    while i < hi
        invariant
            lo <= i <= hi <= v@.len(),
            out@ == v@.subrange(lo as int, i as int),
        decreases hi - i,
    {
        out.push(v[i]);
        proof {
            assert(out@ =~= v@.subrange(lo as int, i + 1));
        }
        i += 1;
    }
    proof {
        assert(out@ =~= v@.subrange(lo as int, hi as int));
    }
    out
}

/// Copies the bytes of `v` in `lo..hi` without the spaces at either end.
pub fn trim_range(v: &Vec<u8>, lo: usize, hi: usize) -> (out: Vec<u8>)
    requires
        lo <= hi <= v@.len(),
    ensures
        out@ == trimmed(v@, lo as int, hi as int),
{
    let mut a: usize = lo;
    while a < hi && (v[a] == 32 || (9 <= v[a] && v[a] <= 13))
        invariant
            lo <= a <= hi <= v@.len(),
            skip_spaces(v@, lo as int, hi as int) == skip_spaces(v@, a as int, hi as int),
        decreases hi - a,
    {
        a += 1;
    }
    let mut b: usize = hi;
    while a < b && (v[b - 1] == 32 || (9 <= v[b - 1] && v[b - 1] <= 13))
        invariant
            a <= b <= hi <= v@.len(),
            drop_spaces(v@, a as int, hi as int) == drop_spaces(v@, a as int, b as int),
        decreases b - a,
    {
        b -= 1;
    }
    copy_range(v, a, b)
}

/// What a `Content-Disposition` line says.
pub struct Disposition {
    /// The disposition type, without the spaces round it.
    pub kind: Vec<u8>,
    /// The field's name, as it stands between the quotes.
    pub name: Vec<u8>,
    /// The file's name, where the line gives one.
    pub filename: Option<Vec<u8>>,
}

/// A `Disposition` over sequences, for contracts.
pub struct DispositionView {
    pub kind: Seq<u8>,
    pub name: Seq<u8>,
    pub filename: Option<Seq<u8>>,
}

impl Disposition {
    /// The same three values as sequences.
    pub open spec fn view(&self) -> DispositionView {
        DispositionView {
            kind: self.kind@,
            name: self.name@,
            filename: match self.filename {
                Some(f) => Some(f@),
                None => None,
            },
        }
    }
}

/// The byte `"`.
pub open spec fn quote() -> Seq<u8> {
    seq![34u8]
}

/// The byte `;`.
pub open spec fn semicolon() -> Seq<u8> {
    seq![59u8]
}

/// A parameter begins at index `i` of `line`: before it stand a `;` and
/// then nothing but spaces.
pub open spec fn starts_param(line: Seq<u8>, i: int) -> bool {
    let j = drop_spaces(line, 0, i);
    0 < j <= i && line[j - 1] == 59u8
}

/// The index of the first parameter of `s` that begins with `marker`, at
/// `from` or later, or -1 where there is none.
pub open spec fn find_param(s: Seq<u8>, marker: Seq<u8>, from: int) -> int
    decreases s.len() - from,
{
    if from < 0 || from >= s.len() || from + marker.len() > s.len() {
        -1
    } else if matches_at(s, marker, from) && starts_param(s, from) {
        from
    } else {
        find_param(s, marker, from + 1)
    }
}

/// What `find_param` returns is a parameter that begins with `marker`,
/// the first from `from` on; and where it returns -1 there is none from
/// `from` on.
pub proof fn lemma_find_param(s: Seq<u8>, marker: Seq<u8>, from: int)
    requires
        0 <= from,
        marker.len() > 0,
    ensures
        find_param(s, marker, from) == -1 || from <= find_param(s, marker, from),
        find_param(s, marker, from) >= 0 ==> matches_at(s, marker, find_param(s, marker, from))
            && starts_param(s, find_param(s, marker, from)),
        forall|j: int|
            from <= j && (j < find_param(s, marker, from) || find_param(s, marker, from) == -1)
                ==> !(#[trigger] matches_at(s, marker, j) && starts_param(s, j)),
    decreases s.len() - from,
{
    if from >= s.len() || from + marker.len() > s.len() {
    } else if matches_at(s, marker, from) && starts_param(s, from) {
    } else {
        lemma_find_param(s, marker, from + 1);
    }
}

/// Where a parameter begins with `marker` at `at`, and none does from
/// `from` up to `at`, `at` is what `find_param` gives.
pub proof fn lemma_find_param_is(s: Seq<u8>, marker: Seq<u8>, from: int, at: int)
    requires
        marker.len() > 0,
        0 <= from <= at,
        matches_at(s, marker, at),
        starts_param(s, at),
        forall|j: int|
            from <= j < at ==> !(#[trigger] matches_at(s, marker, j) && starts_param(s, j)),
    ensures
        find_param(s, marker, from) == at,
    decreases at - from,
{
    if from < at {
        lemma_find_param_is(s, marker, from + 1, at);
    }
}

/// Whether a parameter begins at index `i` of `line`.
pub fn param_starts(line: &Vec<u8>, i: usize) -> (r: bool)
    requires
        i <= line@.len(),
    ensures
        r == starts_param(line@, i as int),
{
    let mut j: usize = i;
    while j > 0 && (line[j - 1] == 32 || (9 <= line[j - 1] && line[j - 1] <= 13))
        invariant
            j <= i <= line@.len(),
            drop_spaces(line@, 0, i as int) == drop_spaces(line@, 0, j as int),
        decreases j,
    {
        j -= 1;
    }
    j > 0 && line[j - 1] == 59
}

/// Finds the first parameter of `line` that begins with `marker`.
pub fn find_param_bytes(line: &Vec<u8>, marker: &Vec<u8>) -> (r: Option<usize>)
    ensures
        match r {
            Some(i) => i == find_param(line@, marker@, 0),
            None => find_param(line@, marker@, 0) == -1,
        },
{
    let n: usize = line.len();
    let m: usize = marker.len();
    let mut i: usize = 0;
    while i < n && m <= n - i
        invariant
            i <= n,
            n == line@.len(),
            m == marker@.len(),
            find_param(line@, marker@, 0) == find_param(line@, marker@, i as int),
        decreases n - i,
    {
        if matches_here(line, marker, i) && param_starts(line, i) {
            return Some(i);
        }
        i += 1;
    }
    None
}

/// The value in quotes of the first parameter of `line` that begins with
/// `marker`; `None` where there is no such parameter or the closing quote
/// is missing.
pub open spec fn quoted_after(line: Seq<u8>, marker: Seq<u8>) -> Option<Seq<u8>> {
    let at = find_param(line, marker, 0);
    if at < 0 {
        None
    } else {
        let start = at + marker.len();
        let end = find_from(line, quote(), start);
        if end < 0 {
            None
        } else {
            Some(line.subrange(start, end))
        }
    }
}

/// What a `Content-Disposition` line says, or what is wrong with it: the
/// type stands between the header's name and the next `;`, the field's
/// name in quotes in the parameter `name`, the file's name, if any, in the
/// parameter `filename`. A parameter begins behind a `;` and spaces, so
/// the `name=` inside `filename=` is no field name.
pub open spec fn disposition_of(line: Seq<u8>) -> Result<DispositionView, HeaderFault> {
    let at = find_from(line, disposition_marker(), 0);
    if at < 0 {
        Err(HeaderFault::DispositionMissing)
    } else {
        let start = at + disposition_marker().len();
        let end = find_from(line, semicolon(), start);
        if end < 0 {
            Err(HeaderFault::DispositionValue)
        } else {
            match quoted_after(line, name_marker()) {
                None => Err(HeaderFault::FieldName),
                Some(name) => Ok(
                    DispositionView {
                        kind: trimmed(line, start, end),
                        name,
                        filename: quoted_after(line, filename_marker()),
                    },
                ),
            }
        }
    }
}

/// A line without a parameter `name` is not read as a disposition line,
/// whatever else it holds.
pub proof fn lemma_missing_name_is_fault(line: Seq<u8>)
    requires
        find_param(line, name_marker(), 0) < 0,
    ensures
        disposition_of(line) is Err,
        find_from(line, disposition_marker(), 0) >= 0 && find_from(
            line,
            semicolon(),
            find_from(line, disposition_marker(), 0) + disposition_marker().len(),
        ) >= 0 ==> disposition_of(line) == Err::<DispositionView, HeaderFault>(
            HeaderFault::FieldName,
        ),
{
}

/// Pairs a value with what `right` finds for it, where both exist.
pub fn with<T, U, F: FnOnce(&T) -> Option<U>>(left: Option<T>, right: F) -> (r: Option<(T, U)>)
    requires
        left matches Some(l) ==> right.requires((&l,)),
    ensures
        match left {
            Some(l) => match r {
                Some(pair) => pair.0 == l && right.ensures((&l,), Some(pair.1)),
                None => right.ensures((&l,), None::<U>),
            },
            None => r is None,
        },
{
    match left {
        Some(l) => {
            let found = right(&l);
            match found {
                Some(u) => Some((l, u)),
                None => None,
            }
        },
        None => None,
    }
}

/// The index of the quote that closes a value: the first quote in `from.1`
/// at the index `from.0` or later.
pub fn closing_quote(from: &(usize, &Vec<u8>)) -> (r: Option<usize>)
    ensures
        match r {
            Some(end) => end == find_from(from.1@, quote(), from.0 as int),
            None => find_from(from.1@, quote(), from.0 as int) == -1,
        },
{
    let q: Vec<u8> = vec![34u8];
    proof {
        assert(q@ =~= quote());
    }
    find_bytes(from.1, &q, from.0)
}

/// Reads the value in quotes that follows the first occurrence of `marker`.
pub fn read_quoted(line: &Vec<u8>, marker: &Vec<u8>) -> (r: Option<Vec<u8>>)
    ensures
        match r {
            Some(v) => quoted_after(line@, marker@) == Some(v@),
            None => quoted_after(line@, marker@) is None,
        },
{
    let total: usize = line.len();
    let opening: Option<(usize, &Vec<u8>)> = match find_param_bytes(line, marker) {
        Some(at) => {
            proof {
                if marker@.len() > 0 {
                    lemma_find_param(line@, marker@, 0);
                }
            }
            Some((at + marker.len(), line))
        },
        None => None,
    };
    match with(opening, closing_quote) {
        Some((from, end)) => {
            proof {
                lemma_find_from(line@, quote(), from.0 as int);
            }
            Some(copy_range(line, from.0, end))
        },
        None => None,
    }
}

/// Reads a `Content-Disposition` line.
pub fn parse_content_disposition(line: &Vec<u8>) -> (r: Result<Disposition, HeaderFault>)
    ensures
        match r {
            Ok(d) => disposition_of(line@) == Ok::<DispositionView, HeaderFault>(d@),
            Err(f) => disposition_of(line@) == Err::<DispositionView, HeaderFault>(f),
        },
{
    let marker: Vec<u8> = disposition_marker_bytes();
    let at: usize = match find_bytes(line, &marker, 0) {
        Some(i) => i,
        None => {
            return Err(HeaderFault::DispositionMissing);
        },
    };
    proof {
        lemma_find_from(line@, marker@, 0);
    }
    let total: usize = line.len();
    let start: usize = at + marker.len();
    let semi: Vec<u8> = vec![59u8];
    proof {
        assert(semi@ =~= semicolon());
        lemma_find_from(line@, semicolon(), start as int);
    }
    let end: usize = match find_bytes(line, &semi, start) {
        Some(i) => i,
        None => {
            return Err(HeaderFault::DispositionValue);
        },
    };
    let kind: Vec<u8> = trim_range(line, start, end);
    let name_open: Vec<u8> = name_marker_bytes();
    let name: Vec<u8> = match read_quoted(line, &name_open) {
        Some(v) => v,
        None => {
            return Err(HeaderFault::FieldName);
        },
    };
    let file_open: Vec<u8> = filename_marker_bytes();
    let filename: Option<Vec<u8>> = read_quoted(line, &file_open);
    Ok(Disposition { kind, name, filename })
}

/// The content type that a line declares: what follows the first
/// `Content-Type:` in it, without the spaces round it; `None` where the
/// line does not hold `Content-Type:`.
pub open spec fn content_type_of(line: Seq<u8>) -> Option<Seq<u8>> {
    let at = find_from(line, content_type_marker(), 0);
    if at < 0 {
        None
    } else {
        Some(trimmed(line, at + content_type_marker().len(), line.len() as int))
    }
}

/// Reads the content type that a line declares.
pub fn parse_content_type(line: &Vec<u8>) -> (r: Option<Vec<u8>>)
    ensures
        match r {
            Some(v) => content_type_of(line@) == Some(v@),
            None => content_type_of(line@) is None,
        },
{
    let marker: Vec<u8> = content_type_marker_bytes();
    match find_bytes(line, &marker, 0) {
        Some(at) => {
            proof {
                lemma_find_from(line@, marker@, 0);
            }
            let total: usize = line.len();
            Some(trim_range(line, at + marker.len(), total))
        },
        None => None,
    }
}

} // verus!
