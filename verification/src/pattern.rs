//! Occurrences of a byte pattern in a byte sequence.

use vstd::prelude::*;

verus! {

/// `pat` occurs in `s` at index `i`, whole.
pub open spec fn matches_at(s: Seq<u8>, pat: Seq<u8>, i: int) -> bool {
    0 <= i && i + pat.len() <= s.len() && s.subrange(i, i + pat.len()) == pat
}

/// No occurrence of `pat` in `s` begins before index `n`.
pub open spec fn free_before(s: Seq<u8>, pat: Seq<u8>, n: int) -> bool {
    forall|i: int| 0 <= i < n ==> !matches_at(s, pat, i)
}

/// The first occurrence of `pat` in `s` begins at index `p`.
pub open spec fn first_match(s: Seq<u8>, pat: Seq<u8>, p: int) -> bool {
    matches_at(s, pat, p) && free_before(s, pat, p)
}

/// `pat` occurs somewhere in `s`.
pub open spec fn has_match(s: Seq<u8>, pat: Seq<u8>) -> bool {
    exists|i: int| matches_at(s, pat, i)
}

/// An occurrence in a sequence is an occurrence in every extension of it,
/// and an occurrence in the extension that ends inside the sequence is one
/// in the sequence.
pub proof fn lemma_match_extend(s: Seq<u8>, rest: Seq<u8>, pat: Seq<u8>, i: int)
    ensures
        matches_at(s, pat, i) ==> matches_at(s + rest, pat, i),
        matches_at(s + rest, pat, i) && i + pat.len() <= s.len() ==> matches_at(s, pat, i),
{
    if 0 <= i && i + pat.len() <= s.len() {
        assert((s + rest).subrange(i, i + pat.len()) =~= s.subrange(i, i + pat.len()));
    }
}

/// Dropping `n` leading bytes moves every occurrence `n` places down.
pub proof fn lemma_match_skip(s: Seq<u8>, pat: Seq<u8>, n: int, i: int)
    requires
        0 <= n <= s.len(),
        0 <= i,
    ensures
        matches_at(s.skip(n), pat, i) == matches_at(s, pat, i + n),
{
    if i + pat.len() <= s.len() - n {
        assert(s.skip(n).subrange(i, i + pat.len()) =~= s.subrange(i + n, i + n + pat.len()));
    }
}

/// Compares `pat` with the bytes of `buf` from index `at` on.
pub fn matches_here(buf: &Vec<u8>, pat: &Vec<u8>, at: usize) -> (r: bool)
    ensures
        r == matches_at(buf@, pat@, at as int),
{
    let n: usize = pat.len();
    let total: usize = buf.len();
    if at > total || n > total - at {
        return false;
    }
    let mut j: usize = 0;
    while j < n
        invariant
            j <= n,
            n == pat@.len(),
            at + n <= total,
            total == buf@.len(),
            forall|k: int| 0 <= k < j ==> buf@[at + k] == pat@[k],
        decreases n - j,
    {
        if buf[at + j] != pat[j] {
            proof {
                assert(buf@.subrange(at as int, at + n)[j as int] == buf@[at + j]);
            }
            return false;
        }
        j += 1;
    }
    proof {
        assert(buf@.subrange(at as int, at + n) =~= pat@);
    }
    true
}

/// The index of the first occurrence of `pat` in `s` that begins at `from`
/// or later, or -1 where there is none.
pub open spec fn find_from(s: Seq<u8>, pat: Seq<u8>, from: int) -> int
    decreases s.len() - from,
{
    if from < 0 || from >= s.len() || from + pat.len() > s.len() {
        -1
    } else if matches_at(s, pat, from) {
        from
    } else {
        find_from(s, pat, from + 1)
    }
}

/// What `find_from` returns is an occurrence, for a pattern that is not
/// empty the first from `from` on; and where it returns -1 for such a
/// pattern there is none from `from` on.
pub proof fn lemma_find_from(s: Seq<u8>, pat: Seq<u8>, from: int)
    requires
        0 <= from,
    ensures
        find_from(s, pat, from) == -1 || from <= find_from(s, pat, from),
        find_from(s, pat, from) >= 0 ==> matches_at(s, pat, find_from(s, pat, from)),
        pat.len() > 0 ==> forall|j: int|
            from <= j && (j < find_from(s, pat, from) || find_from(s, pat, from) == -1)
                ==> !matches_at(s, pat, j),
    decreases s.len() - from,
{
    if from >= s.len() || from + pat.len() > s.len() {
    } else if matches_at(s, pat, from) {
    } else {
        lemma_find_from(s, pat, from + 1);
    }
}

/// Where `pat` occurs at `at` and nowhere from `from` up to `at`, `at` is
/// what `find_from` gives.
pub proof fn lemma_find_from_is(s: Seq<u8>, pat: Seq<u8>, from: int, at: int)
    requires
        pat.len() > 0,
        0 <= from <= at,
        matches_at(s, pat, at),
        forall|j: int| from <= j < at ==> !matches_at(s, pat, j),
    ensures
        find_from(s, pat, from) == at,
{
    lemma_find_from(s, pat, from);
}

/// Where `pat` occurs nowhere from `from` on, `find_from` gives -1.
pub proof fn lemma_find_from_none(s: Seq<u8>, pat: Seq<u8>, from: int)
    requires
        0 <= from,
        forall|j: int| from <= j ==> !matches_at(s, pat, j),
    ensures
        find_from(s, pat, from) == -1,
{
    lemma_find_from(s, pat, from);
}

/// Finds the first occurrence of `pat` in `hay` that begins at `from` or
/// later.
pub fn find_bytes(hay: &Vec<u8>, pat: &Vec<u8>, from: usize) -> (r: Option<usize>)
    ensures
        match r {
            Some(i) => i == find_from(hay@, pat@, from as int),
            None => find_from(hay@, pat@, from as int) == -1,
        },
{
    let n: usize = hay.len();
    let m: usize = pat.len();
    if from >= n || m > n - from {
        return None;
    }
    let mut i: usize = from;
    while i < n && m <= n - i
        invariant
            from <= i <= n,
            n == hay@.len(),
            m == pat@.len(),
            find_from(hay@, pat@, from as int) == find_from(hay@, pat@, i as int),
        decreases n - i,
    {
        if matches_here(hay, pat, i) {
            return Some(i);
        }
        i += 1;
    }
    None
}

/// The byte that ends a line.
pub open spec fn line_feed() -> Seq<u8> {
    seq![10u8]
}

/// Where the bytes before the next occurrence of `pat` end: at the first
/// occurrence of `pat` in `s`, or at the end of `s` where there is none.
pub open spec fn segment_len(s: Seq<u8>, pat: Seq<u8>) -> int {
    if has_match(s, pat) {
        choose|p: int| first_match(s, pat, p)
    } else {
        s.len() as int
    }
}

/// The length of the first line of `s`: up to and with the first line feed
/// before the next occurrence of `pat`, or all that stands before that
/// occurrence where no line feed does.
pub open spec fn line_len(s: Seq<u8>, pat: Seq<u8>) -> int {
    let seg = segment_len(s, pat);
    let at = find_from(s.take(seg), line_feed(), 0);
    if at >= 0 {
        at + 1
    } else {
        seg
    }
}

/// The first occurrence is unique.
pub proof fn lemma_first_match_unique(s: Seq<u8>, pat: Seq<u8>, p: int, q: int)
    requires
        first_match(s, pat, p),
        first_match(s, pat, q),
    ensures
        p == q,
{
}

/// An index that no occurrence begins before, and that is an occurrence or
/// the end of `s`, is where the segment ends.
pub proof fn lemma_segment_len(s: Seq<u8>, pat: Seq<u8>, n: int)
    requires
        pat.len() >= 1,
        0 <= n <= s.len(),
        free_before(s, pat, n),
        matches_at(s, pat, n) || n == s.len(),
    ensures
        n == segment_len(s, pat),
        has_match(s, pat) == matches_at(s, pat, n),
{
    if matches_at(s, pat, n) {
        assert(first_match(s, pat, n));
        let p = choose|p: int| first_match(s, pat, p);
        lemma_first_match_unique(s, pat, p, n);
    } else {
        assert forall|i: int| !matches_at(s, pat, i) by {
            if matches_at(s, pat, i) {
                assert(i < n);
            }
        }
    }
}

/// The segment ends inside `s`, no occurrence begins before its end, and
/// where `pat` occurs at all, its first occurrence begins there.
pub proof fn lemma_segment_bounds(s: Seq<u8>, pat: Seq<u8>)
    requires
        pat.len() >= 1,
    ensures
        0 <= segment_len(s, pat) <= s.len(),
        free_before(s, pat, segment_len(s, pat)),
        has_match(s, pat) ==> first_match(s, pat, segment_len(s, pat)),
        !has_match(s, pat) ==> segment_len(s, pat) == s.len(),
{
    if has_match(s, pat) {
        let i = choose|i: int| matches_at(s, pat, i);
        lemma_least_match(s, pat, i);
    } else {
        assert forall|i: int| 0 <= i < s.len() implies !matches_at(s, pat, i) by {}
    }
}

/// Where `pat` occurs at `i`, it has a first occurrence.
pub proof fn lemma_least_match(s: Seq<u8>, pat: Seq<u8>, i: int)
    requires
        matches_at(s, pat, i),
    ensures
        exists|p: int| first_match(s, pat, p),
    decreases i,
{
    if free_before(s, pat, i) {
        assert(first_match(s, pat, i));
    } else {
        let j = choose|j: int| 0 <= j < i && matches_at(s, pat, j);
        lemma_least_match(s, pat, j);
    }
}

/// Dropping bytes from the front of a segment shortens it by as many, and
/// leaves the occurrences behind it where they were.
pub proof fn lemma_segment_skip(s: Seq<u8>, pat: Seq<u8>, n: int)
    requires
        pat.len() >= 1,
        0 <= n <= s.len(),
        free_before(s, pat, n),
    ensures
        n <= segment_len(s, pat),
        segment_len(s.skip(n), pat) == segment_len(s, pat) - n,
        has_match(s.skip(n), pat) == has_match(s, pat),
{
    lemma_segment_bounds(s, pat);
    let seg = segment_len(s, pat);
    if has_match(s, pat) && n > seg {
        assert(false);
    }
    assert forall|i: int| 0 <= i < seg - n implies !matches_at(s.skip(n), pat, i) by {
        lemma_match_skip(s, pat, n, i);
    }
    lemma_match_skip(s, pat, n, seg - n);
    lemma_segment_len(s.skip(n), pat, seg - n);
}

/// A segment into which `pat` does not reach: no occurrence of `pat`
/// begins inside it, even with `pat` behind it.
pub open spec fn closed_by(seg: Seq<u8>, pat: Seq<u8>) -> bool {
    free_before(seg + pat, pat, seg.len() as int)
}

/// A stream that holds a segment, then the pattern, then anything, is cut
/// where the segment ends: the segment is what stands before the cut, and
/// what follows the pattern is left whole.
pub proof fn lemma_split_at_boundary(seg: Seq<u8>, pat: Seq<u8>, rest: Seq<u8>)
    requires
        pat.len() >= 1,
        closed_by(seg, pat),
    ensures
        has_match(seg + pat + rest, pat),
        segment_len(seg + pat + rest, pat) == seg.len(),
        (seg + pat + rest).take(seg.len() as int) == seg,
        (seg + pat + rest).skip((seg.len() + pat.len()) as int) == rest,
{
    let s = seg + pat + rest;
    let n = seg.len() as int;
    assert(s.subrange(n, n + pat.len()) =~= pat);
    assert forall|i: int| 0 <= i < n implies !matches_at(s, pat, i) by {
        lemma_match_extend(seg + pat, rest, pat, i);
    }
    lemma_segment_len(s, pat, n);
    assert(s.take(n) =~= seg);
    assert(s.skip(n + pat.len()) =~= rest);
}

/// The segments, each with the pattern behind it, in one stream.
pub open spec fn join(segs: Seq<Seq<u8>>, pat: Seq<u8>) -> Seq<u8>
    decreases segs.len(),
{
    if segs.len() == 0 {
        Seq::empty()
    } else {
        segs[0] + pat + join(segs.skip(1), pat)
    }
}

/// The first `n` segments of a stream: what is read up to the pattern, `n`
/// times, the pattern stepped over after each.
pub open spec fn split(s: Seq<u8>, pat: Seq<u8>, n: nat) -> Seq<Seq<u8>>
    decreases n,
{
    if n == 0 {
        Seq::empty()
    } else {
        seq![s.take(segment_len(s, pat))] + split(
            s.skip(segment_len(s, pat) + pat.len()),
            pat,
            (n - 1) as nat,
        )
    }
}

/// Reading up to the pattern and stepping over it, as often as there are
/// segments, gives back the segments that a stream was joined from: in
/// their order, with no byte lost or added.
pub proof fn lemma_split_join(segs: Seq<Seq<u8>>, pat: Seq<u8>, tail: Seq<u8>)
    requires
        pat.len() >= 1,
        forall|i: int| 0 <= i < segs.len() ==> closed_by(#[trigger] segs[i], pat),
    ensures
        split(join(segs, pat) + tail, pat, segs.len()) == segs,
    decreases segs.len(),
{
    let s = join(segs, pat) + tail;
    if segs.len() == 0 {
        assert(split(s, pat, 0) =~= segs);
    } else {
        let later = segs.skip(1);
        let rest = join(later, pat) + tail;
        assert(s =~= segs[0] + pat + rest);
        lemma_split_at_boundary(segs[0], pat, rest);
        assert forall|i: int| 0 <= i < later.len() implies closed_by(#[trigger] later[i], pat) by {
            assert(later[i] == segs[i + 1]);
        }
        lemma_split_join(later, pat, tail);
        assert(seq![segs[0]] + later =~= segs);
    }
}

/// `a` stands at the front of `b`.
pub open spec fn is_front_of(a: Seq<u8>, b: Seq<u8>) -> bool {
    a.len() <= b.len() && b.take(a.len() as int) == a
}

/// `t` is what is left of `s` once some bytes at its front are gone, none
/// of them from the first occurrence of `pat` or from behind it.
pub open spec fn is_rest_before(t: Seq<u8>, s: Seq<u8>, pat: Seq<u8>) -> bool {
    exists|k: int| 0 <= k <= s.len() && free_before(s, pat, k) && t == #[trigger] s.skip(k)
}

/// `t` is what is left of `s` once some bytes at its front are gone.
pub open spec fn is_rest_of(t: Seq<u8>, s: Seq<u8>) -> bool {
    exists|k: int| 0 <= k <= s.len() && t == #[trigger] s.skip(k)
}

/// What is left of what is left of `s` is left of `s`; and `s` is left of
/// itself.
pub proof fn lemma_rest_of_rest(u: Seq<u8>, t: Seq<u8>, s: Seq<u8>)
    requires
        is_rest_of(u, t),
        is_rest_of(t, s),
    ensures
        is_rest_of(u, s),
        is_rest_of(s, s),
{
    let k = choose|k: int| 0 <= k <= s.len() && t == #[trigger] s.skip(k);
    let j = choose|j: int| 0 <= j <= t.len() && u == #[trigger] t.skip(j);
    assert(s.skip(k).skip(j) =~= s.skip(k + j));
    assert(u == s.skip(k + j));
    assert(s =~= s.skip(0));
}

/// A pattern of one byte occurs where that byte stands.
pub proof fn lemma_match_byte(s: Seq<u8>, b: u8, i: int)
    ensures
        matches_at(s, seq![b], i) == (0 <= i < s.len() && s[i] == b),
{
    if 0 <= i < s.len() {
        if s[i] == b {
            assert(s.subrange(i, i + 1) =~= seq![b]);
        } else {
            assert(s.subrange(i, i + 1)[0] == s[i]);
        }
    }
}

/// A line that was read as far as its line feed, or as far as the segment
/// goes, has the length that `line_len` gives.
pub proof fn lemma_line_len(s: Seq<u8>, pat: Seq<u8>, n: int)
    requires
        pat.len() >= 1,
        0 < n <= s.len(),
        free_before(s, pat, n),
        forall|i: int| 0 <= i < n - 1 ==> s[i] != 10u8,
        s[n - 1] == 10u8 || matches_at(s, pat, n) || n == s.len(),
    ensures
        n == line_len(s, pat),
{
    lemma_segment_bounds(s, pat);
    let seg = segment_len(s, pat);
    if has_match(s, pat) && n > seg {
        assert(false);
    }
    let t = s.take(seg);
    assert(line_feed().len() == 1);
    lemma_find_from(t, line_feed(), 0);
    let r = find_from(t, line_feed(), 0);
    lemma_match_byte(t, 10u8, n - 1);
    if s[n - 1] == 10u8 {
        assert(matches_at(t, line_feed(), n - 1));
        assert(r >= 0);
        lemma_match_byte(t, 10u8, r);
        assert(t[r] == s[r]);
        assert(r == n - 1);
    } else {
        lemma_segment_len(s, pat, n);
        if r >= 0 {
            lemma_match_byte(t, 10u8, r);
            assert(t[r] == s[r]);
            assert(false);
        }
    }
}

/// Where the segment is empty, so is the line.
pub proof fn lemma_line_len_empty(s: Seq<u8>, pat: Seq<u8>)
    requires
        pat.len() >= 1,
        matches_at(s, pat, 0) || s.len() == 0,
    ensures
        segment_len(s, pat) == 0,
        line_len(s, pat) == 0,
{
    lemma_segment_len(s, pat, 0);
}

} // verus!
