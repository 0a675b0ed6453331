//! Where a host name shows the query highlighted: the non-overlapping,
//! left-to-right occurrences of the lower-cased query in the lower-cased name.

use crate::text::{lowercase, to_lowercase};
use vstd::prelude::*;
use vstd::utf8::{encode_utf8, is_char_boundary, valid_utf8};

verus! {

/// Whether byte position `p` of the UTF-8 text `l` is a character boundary:
/// the end of the text, or a byte that does not continue a character.
pub open spec fn at_boundary(l: Seq<u8>, p: int) -> bool {
    p == l.len() || (0 <= p < l.len() && (l[p] < 0x80 || l[p] >= 0xc0))
}

/// Whether `q` occurs in `l` at byte `p`.
pub open spec fn occurs_at(l: Seq<u8>, q: Seq<u8>, p: int) -> bool {
    0 <= p && p + q.len() <= l.len() && l.subrange(p, p + q.len()) == q
}

/// The first byte position at or after `from` at which `q` occurs in `l`,
/// or -1 if there is none.
pub open spec fn first_occurrence(l: Seq<u8>, q: Seq<u8>, from: int) -> int
    decreases l.len() + 1 - from,
{
    if from < 0 || from + q.len() > l.len() {
        -1
    } else if occurs_at(l, q, from) {
        from
    } else {
        first_occurrence(l, q, from + 1)
    }
}

/// The byte positions at or after `from` at which `str::match_indices`
/// reports `q` in `l`: for a non-empty `q`, each occurrence found searching
/// on from the end of the previous one; for an empty `q`, every character
/// boundary.
pub open spec fn match_starts(l: Seq<u8>, q: Seq<u8>, from: int) -> Seq<int>
    decreases l.len() + 1 - from,
{
    if from < 0 || from > l.len() {
        Seq::empty()
    } else if q.len() == 0 {
        if at_boundary(l, from) {
            seq![from] + match_starts(l, q, from + 1)
        } else {
            match_starts(l, q, from + 1)
        }
    } else {
        let p = first_occurrence(l, q, from);
        if p < from || p + q.len() > l.len() {
            Seq::empty()
        } else {
            seq![p] + match_starts(l, q, p + q.len())
        }
    }
}

/// The highlight positions for `text` and `query`: the byte positions in
/// the lower-cased text at which the lower-cased query is found; none for an
/// empty query.
pub open spec fn highlight_positions(text: Seq<char>, query: Seq<char>) -> Seq<int> {
    if query.len() == 0 {
        Seq::empty()
    } else {
        match_starts(encode_utf8(lowercase(text)), encode_utf8(lowercase(query)), 0)
    }
}

/// The positions as integers.
pub open spec fn positions_view(v: Seq<usize>) -> Seq<int> {
    v.map_values(|x: usize| x as int)
}

/// `first_occurrence` at `from` equals it at any later point up to which
/// there is no occurrence.
proof fn lemma_first_occurrence_skip(l: Seq<u8>, q: Seq<u8>, from: int, k: int)
    requires
        0 <= from <= k,
        k + q.len() <= l.len() + 1,
        forall|j: int| from <= j < k ==> !occurs_at(l, q, j),
    ensures
        first_occurrence(l, q, from) == first_occurrence(l, q, k),
    decreases k - from,
{
    if from < k {
        lemma_first_occurrence_skip(l, q, from + 1, k);
    }
}

/// Whether `q` occurs in `l` at `p`.
fn occurs_at_exec(l: &[u8], q: &[u8], p: usize) -> (res: bool)
    requires
        p + q@.len() <= l@.len(),
    ensures
        res == occurs_at(l@, q@, p as int),
{
    let ln = l.len();
    let mut k: usize = 0;
    while k < q.len()
        invariant
            ln == l@.len(),
            p + q@.len() <= l@.len(),
            k <= q@.len(),
            forall|j: int| 0 <= j < k ==> l@[p + j] == q@[j],
        decreases q@.len() - k,
    {
        if l[p + k] != q[k] {
            assert(l@.subrange(p as int, p + q@.len())[k as int] != q@[k as int]);
            return false;
        }
        k = k + 1;
    }
    assert(l@.subrange(p as int, p + q@.len()) =~= q@);
    true
}

/// The byte positions at which `str::match_indices` finds `q` in `l`.
pub fn find_matches(l: &[u8], q: &[u8]) -> (r: Vec<usize>)
    ensures
        positions_view(r@) == match_starts(l@, q@, 0),
{
    let mut r: Vec<usize> = Vec::new();
    let mut pos: usize = 0;
    assert(positions_view(r@) =~= Seq::<int>::empty());
    if q.len() == 0 {
        while pos <= l.len()
            invariant
                pos <= l@.len() + 1,
                q@.len() == 0,
                positions_view(r@) + match_starts(l@, q@, pos as int) == match_starts(l@, q@, 0),
            decreases l@.len() + 1 - pos,
        {
            let ghost prev = r@;
            if pos == l.len() || l[pos] < 0x80 || l[pos] >= 0xc0 {
                r.push(pos);
                assert(positions_view(r@) =~= positions_view(prev).push(pos as int));
            }
            assert(positions_view(r@) + match_starts(l@, q@, pos + 1) =~= positions_view(prev)
                + match_starts(l@, q@, pos as int));
            if pos == l.len() {
                assert(match_starts(l@, q@, pos + 1) =~= Seq::<int>::empty());
                assert(positions_view(r@) =~= positions_view(r@) + Seq::<int>::empty());
                return r;
            }
            pos = pos + 1;
        }
        return r;
    }
    let ln = l.len();
    let qn = q.len();
    if qn > ln {
        assert(match_starts(l@, q@, 0) =~= Seq::<int>::empty());
        return r;
    }
    let last = ln - qn;
    while pos <= last
        invariant
            ln == l@.len(),
            qn == q@.len(),
            last + qn == ln,
            pos <= l@.len(),
            q@.len() > 0,
            positions_view(r@) + match_starts(l@, q@, pos as int) == match_starts(l@, q@, 0),
        decreases l@.len() + 1 - pos,
    {
        // search for the next occurrence from `pos`
        let mut p: usize = pos;
        while p <= last && !occurs_at_exec(l, q, p)
            invariant
                ln == l@.len(),
                qn == q@.len(),
                last + qn == ln,
                pos <= p,
                p <= last + 1,
                q@.len() > 0,
                forall|j: int| pos <= j < p ==> !occurs_at(l@, q@, j),
            decreases l@.len() + 1 - p,
        {
            p = p + 1;
        }
        proof {
            lemma_first_occurrence_skip(l@, q@, pos as int, p as int);
        }
        let ghost prev = r@;
        if p > last {
            assert(match_starts(l@, q@, pos as int) =~= Seq::<int>::empty());
            assert(positions_view(r@) =~= positions_view(r@) + Seq::<int>::empty());
            return r;
        }
        r.push(p);
        assert(positions_view(r@) =~= positions_view(prev).push(p as int));
        assert(positions_view(r@) + match_starts(l@, q@, p + q@.len()) =~= positions_view(prev)
            + match_starts(l@, q@, pos as int));
        pos = p + qn;
    }
    assert(first_occurrence(l@, q@, pos as int) == -1);
    assert(match_starts(l@, q@, pos as int) =~= Seq::<int>::empty());
    assert(positions_view(r@) =~= positions_view(r@) + Seq::<int>::empty());
    r
}

/// The byte positions in `text` where a highlighted copy of the query
/// starts, as the host list draws it: the occurrences of the lower-cased
/// query in the lower-cased text, found left to right without overlap; none
/// for an empty query. Each highlight covers as many bytes of `text` as
/// `query` has.
pub fn highlight_starts(text: &str, query: &str) -> (r: Vec<usize>)
    ensures
        positions_view(r@) == highlight_positions(text@, query@),
{
    if query.is_empty() {
        let r: Vec<usize> = Vec::new();
        assert(positions_view(r@) =~= Seq::<int>::empty());
        return r;
    }
    let text_lower = to_lowercase(text);
    let query_lower = to_lowercase(query);
    find_matches(text_lower.as_str().as_bytes(), query_lower.as_str().as_bytes())
}

/// `first_occurrence` finds an occurrence at or after `from`, and none
/// before it.
proof fn lemma_first_occurrence(l: Seq<u8>, q: Seq<u8>, from: int)
    requires
        0 <= from,
    ensures
        first_occurrence(l, q, from) == -1 || (from <= first_occurrence(l, q, from) && occurs_at(
            l,
            q,
            first_occurrence(l, q, from),
        )),
    decreases l.len() + 1 - from,
{
    if from + q.len() <= l.len() && !occurs_at(l, q, from) {
        lemma_first_occurrence(l, q, from + 1);
    }
}

/// For a non-empty needle the reported positions from `from` on are
/// occurrences, in increasing order and without overlap.
proof fn lemma_match_starts(l: Seq<u8>, q: Seq<u8>, from: int)
    requires
        q.len() > 0,
        0 <= from,
    ensures
        forall|i: int|
            0 <= i < match_starts(l, q, from).len() ==> from <= #[trigger] match_starts(l, q, from)[i]
                && occurs_at(l, q, match_starts(l, q, from)[i]),
        forall|i: int|
            0 <= i < match_starts(l, q, from).len() - 1 ==> #[trigger] match_starts(l, q, from)[i]
                + q.len() <= match_starts(l, q, from)[i + 1],
    decreases l.len() + 1 - from,
{
    if from <= l.len() {
        lemma_first_occurrence(l, q, from);
        let p = first_occurrence(l, q, from);
        if p >= from && p + q.len() <= l.len() {
            lemma_match_starts(l, q, p + q.len());
            let rest = match_starts(l, q, p + q.len());
            let all = match_starts(l, q, from);
            assert(all == seq![p] + rest);
            assert forall|i: int| 0 <= i < all.len() implies from <= #[trigger] all[i] && occurs_at(l, q, all[i]) by {
                if i > 0 {
                    assert(all[i] == rest[i - 1]);
                }
            }
            assert forall|i: int| 0 <= i < all.len() - 1 implies #[trigger] all[i] + q.len() <= all[i + 1] by {
                if i > 0 {
                    assert(all[i] == rest[i - 1]);
                    assert(all[i + 1] == rest[i]);
                } else {
                    assert(all[1] == rest[0]);
                }
            }
        }
    }
}

/// Each highlight starts where the lower-cased query occurs in the
/// lower-cased text, and highlights come in order without overlapping.
pub proof fn law_highlights_are_occurrences(text: Seq<char>, query: Seq<char>)
    requires
        encode_utf8(lowercase(query)).len() > 0,
    ensures
        forall|i: int|
            0 <= i < highlight_positions(text, query).len() ==> occurs_at(
                encode_utf8(lowercase(text)),
                encode_utf8(lowercase(query)),
                #[trigger] highlight_positions(text, query)[i],
            ),
        forall|i: int|
            0 <= i < highlight_positions(text, query).len() - 1 ==> #[trigger] highlight_positions(
                text,
                query,
            )[i] + encode_utf8(lowercase(query)).len() <= highlight_positions(text, query)[i + 1],
{
    if query.len() > 0 {
        lemma_match_starts(encode_utf8(lowercase(text)), encode_utf8(lowercase(query)), 0);
    }
}

/// Where the needle occurs at or after `from`, the first occurrence from
/// `from` on is found, at or before it.
proof fn lemma_first_occurrence_at_most(l: Seq<u8>, q: Seq<u8>, from: int, p: int)
    requires
        0 <= from <= p,
        occurs_at(l, q, p),
    ensures
        from <= first_occurrence(l, q, from) <= p,
        occurs_at(l, q, first_occurrence(l, q, from)),
    decreases p - from,
{
    if !occurs_at(l, q, from) {
        lemma_first_occurrence_at_most(l, q, from + 1, p);
    }
}

/// For a non-empty needle, every occurrence at or after `from` is reported
/// or lies inside a reported one.
proof fn lemma_match_starts_complete(l: Seq<u8>, q: Seq<u8>, from: int, p: int)
    requires
        q.len() > 0,
        0 <= from <= p,
        occurs_at(l, q, p),
    ensures
        exists|i: int|
            0 <= i < match_starts(l, q, from).len() && #[trigger] match_starts(l, q, from)[i] <= p < match_starts(
                l,
                q,
                from,
            )[i] + q.len(),
    decreases p - from,
{
    lemma_first_occurrence_at_most(l, q, from, p);
    let f = first_occurrence(l, q, from);
    let all = match_starts(l, q, from);
    assert(from <= l.len());
    assert(all == seq![f] + match_starts(l, q, f + q.len()));
    if p < f + q.len() {
        assert(all[0] == f);
    } else {
        lemma_match_starts_complete(l, q, f + q.len(), p);
        let rest = match_starts(l, q, f + q.len());
        let i = choose|i: int| 0 <= i < rest.len() && #[trigger] rest[i] <= p < rest[i] + q.len();
        assert(all[i + 1] == rest[i]);
    }
}

/// A non-empty text encodes to at least one byte.
proof fn lemma_encode_nonempty(s: Seq<char>)
    requires
        s.len() > 0,
    ensures
        encode_utf8(s).len() > 0,
{
    let c = s[0] as u32;
    assert(vstd::utf8::encode_scalar(c).len() > 0);
}

/// Every place where the lower-cased query occurs in the lower-cased name
/// is highlighted, or lies inside a highlighted place: no occurrence is left
/// out.
pub proof fn law_highlights_are_complete(text: Seq<char>, query: Seq<char>, p: int)
    requires
        query.len() > 0,
        encode_utf8(lowercase(query)).len() > 0,
        0 <= p,
        occurs_at(encode_utf8(lowercase(text)), encode_utf8(lowercase(query)), p),
    ensures
        exists|i: int|
            0 <= i < highlight_positions(text, query).len() && #[trigger] highlight_positions(text, query)[i] <= p
                < highlight_positions(text, query)[i] + encode_utf8(lowercase(query)).len(),
{
    let l = encode_utf8(lowercase(text));
    let q = encode_utf8(lowercase(query));
    lemma_match_starts_complete(l, q, 0, p);
    let ms = match_starts(l, q, 0);
    assert(highlight_positions(text, query) == ms);
    let i = choose|i: int| 0 <= i < ms.len() && #[trigger] ms[i] <= p < ms[i] + q.len();
    assert(highlight_positions(text, query)[i] == ms[i]);
}

/// A query that is the whole name, up to letter case, highlights the whole
/// name, once.
pub proof fn law_whole_name_highlighted(text: Seq<char>, query: Seq<char>)
    requires
        query.len() > 0,
        lowercase(query).len() > 0,
        lowercase(text) == lowercase(query),
    ensures
        highlight_positions(text, query) == seq![0int],
        encode_utf8(query).len() == encode_utf8(text).len() ==> name_segments(text, query) == seq![
            (0int, 0int, false),
            (0int, encode_utf8(query).len() as int, true),
            (encode_utf8(query).len() as int, encode_utf8(query).len() as int, false),
        ],
{
    broadcast use vstd::utf8::is_char_boundary_start_end_of_seq, vstd::utf8::encode_utf8_valid_utf8;

    let l = encode_utf8(lowercase(text));
    lemma_encode_nonempty(lowercase(query));
    assert(l.subrange(0, l.len() as int) =~= l);
    assert(occurs_at(l, l, 0));
    assert(first_occurrence(l, l, 0) == 0);
    assert(first_occurrence(l, l, l.len() as int) == -1);
    assert(match_starts(l, l, l.len() as int) =~= Seq::<int>::empty());
    assert(match_starts(l, l, 0) =~= seq![0int]);
    let tb = encode_utf8(text);
    let qn = encode_utf8(query).len() as int;
    if qn == tb.len() {
        assert(valid_utf8(tb));
        assert(is_char_boundary(tb, 0));
        assert(is_char_boundary(tb, tb.len() as int));
        assert(fits_highlight(tb, qn, 0, 0));
        let starts = seq![0int];
        assert(starts.drop_first() =~= Seq::<int>::empty());
        assert(segments_from(tb, qn, Seq::<int>::empty(), qn) == seq![(qn, tb.len() as int, false)]);
    }
}

/// Queries with the same lower-case form highlight the same places.
pub proof fn law_highlight_case_insensitive(text: Seq<char>, q1: Seq<char>, q2: Seq<char>)
    requires
        q1.len() > 0,
        q2.len() > 0,
        lowercase(q1) == lowercase(q2),
    ensures
        highlight_positions(text, q1) == highlight_positions(text, q2),
{
}

/// A part of a host name as the list draws it: bytes `start` up to `end`
/// of the name, highlighted or plain.
pub struct Segment {
    pub start: usize,
    pub end: usize,
    pub highlighted: bool,
}

/// A part as a value: its bounds and whether it is highlighted.
pub open spec fn segment_view(s: Segment) -> (int, int, bool) {
    (s.start as int, s.end as int, s.highlighted)
}

/// The values of parts.
pub open spec fn segments_view(v: Seq<Segment>) -> Seq<(int, int, bool)> {
    v.map_values(|s: Segment| segment_view(s))
}

/// Whether a highlight of `qlen` bytes can start at byte `p` of the name's
/// bytes `tb` after the previous part ended at `last`: it starts no earlier
/// than `last`, ends within the name, and both its ends fall between
/// characters of the name.
pub open spec fn fits_highlight(tb: Seq<u8>, qlen: int, last: int, p: int) -> bool {
    &&& last <= p
    &&& p + qlen <= tb.len()
    &&& is_char_boundary(tb, p)
    &&& is_char_boundary(tb, p + qlen)
}

/// The parts of the name's bytes `tb` from `last` on, for the highlight
/// places `starts`: plain text up to each place that fits, the highlight of
/// `qlen` bytes there, and plain text to the end; places that do not fit
/// are passed over.
pub open spec fn segments_from(tb: Seq<u8>, qlen: int, starts: Seq<int>, last: int) -> Seq<(int, int, bool)>
    decreases starts.len(),
{
    if starts.len() == 0 {
        seq![(last, tb.len() as int, false)]
    } else {
        let p = starts[0];
        if fits_highlight(tb, qlen, last, p) {
            seq![(last, p, false), (p, p + qlen, true)] + segments_from(tb, qlen, starts.drop_first(), p + qlen)
        } else {
            segments_from(tb, qlen, starts.drop_first(), last)
        }
    }
}

/// The parts a host name is drawn in for a query: each highlight starts at
/// one of `highlight_positions` and covers as many bytes of the name as the
/// query has. A place where lower-casing changed the length of the text
/// before it, so that the highlight would not fall between characters of
/// the name, is passed over.
pub open spec fn name_segments(text: Seq<char>, query: Seq<char>) -> Seq<(int, int, bool)> {
    segments_from(encode_utf8(text), encode_utf8(query).len() as int, highlight_positions(text, query), 0)
}

/// Splits a host name into the parts the list draws, plain and
/// highlighted, as `name_segments` describes.
pub fn highlight_segments(text: &str, query: &str) -> (r: Vec<Segment>)
    ensures
        segments_view(r@) == name_segments(text@, query@),
{
    let starts = highlight_starts(text, query);
    let ghost tb = encode_utf8(text@);
    let ghost qlen = encode_utf8(query@).len() as int;
    let ghost all = positions_view(starts@);
    let len = text.as_bytes().len();
    let qn = query.as_bytes().len();
    let mut out: Vec<Segment> = Vec::new();
    let mut last: usize = 0;
    let mut i: usize = 0;
    assert(all.skip(0) =~= all);
    assert(segments_view(out@) =~= Seq::<(int, int, bool)>::empty());
    while i < starts.len()
        invariant
            i <= starts@.len(),
            len == tb.len(),
            qn == qlen,
            all == positions_view(starts@),
            all == highlight_positions(text@, query@),
            tb == encode_utf8(text@),
            qlen == encode_utf8(query@).len(),
            last <= len,
            segments_view(out@) + segments_from(tb, qlen, all.skip(i as int), last as int)
                == name_segments(text@, query@),
        decreases starts@.len() - i,
    {
        let p = starts[i];
        let ghost rest = all.skip(i as int);
        assert(rest[0] == p as int);
        assert(rest.drop_first() =~= all.skip(i + 1));
        let ghost prev = out@;
        if last <= p && p <= len && qn <= len - p && text.is_char_boundary(p) && text.is_char_boundary(p + qn) {
            out.push(Segment { start: last, end: p, highlighted: false });
            out.push(Segment { start: p, end: p + qn, highlighted: true });
            assert(segments_view(out@) =~= segments_view(prev) + seq![
                (last as int, p as int, false),
                (p as int, p + qlen, true),
            ]);
            last = p + qn;
        } else {
            assert(!fits_highlight(tb, qlen, last as int, p as int));
        }
        i = i + 1;
    }
    let ghost prev = out@;
    out.push(Segment { start: last, end: len, highlighted: false });
    assert(segments_view(out@) =~= segments_view(prev) + seq![(last as int, len as int, false)]);
    out
}

/// The parts from `last` on cover the bytes from `last` to the end without
/// gap or overlap, in order, and every part begins and ends between
/// characters.
proof fn lemma_segments_cover(tb: Seq<u8>, qlen: int, starts: Seq<int>, last: int)
    requires
        valid_utf8(tb),
        0 <= last <= tb.len(),
        is_char_boundary(tb, last),
        qlen >= 0,
    ensures
        ({
            let s = segments_from(tb, qlen, starts, last);
            &&& s.len() > 0
            &&& s[0].0 == last
            &&& s[s.len() - 1].1 == tb.len()
            &&& forall|i: int|
                0 <= i < s.len() ==> 0 <= (#[trigger] s[i]).0 <= s[i].1 <= tb.len() && is_char_boundary(
                    tb,
                    s[i].0,
                ) && is_char_boundary(tb, s[i].1)
            &&& forall|i: int| 0 <= i < s.len() - 1 ==> (#[trigger] s[i]).1 == s[i + 1].0
        }),
    decreases starts.len(),
{
    broadcast use vstd::utf8::is_char_boundary_start_end_of_seq;

    if starts.len() > 0 {
        let p = starts[0];
        if fits_highlight(tb, qlen, last, p) {
            lemma_segments_cover(tb, qlen, starts.drop_first(), p + qlen);
            let rest = segments_from(tb, qlen, starts.drop_first(), p + qlen);
            let s = segments_from(tb, qlen, starts, last);
            assert(s == seq![(last, p, false), (p, p + qlen, true)] + rest);
            assert forall|i: int| 0 <= i < s.len() implies 0 <= (#[trigger] s[i]).0 <= s[i].1 <= tb.len()
                && is_char_boundary(tb, s[i].0) && is_char_boundary(tb, s[i].1) by {
                if i >= 2 {
                    assert(s[i] == rest[i - 2]);
                }
            }
            assert forall|i: int| 0 <= i < s.len() - 1 implies (#[trigger] s[i]).1 == s[i + 1].0 by {
                if i >= 2 {
                    assert(s[i] == rest[i - 2]);
                    assert(s[i + 1] == rest[i - 1]);
                } else if i == 1 {
                    assert(s[2] == rest[0]);
                }
            }
        } else {
            lemma_segments_cover(tb, qlen, starts.drop_first(), last);
        }
    }
}

/// The bytes of `tb` that the parts `segs` cover, one part after the other.
pub open spec fn joined(tb: Seq<u8>, segs: Seq<(int, int, bool)>) -> Seq<u8>
    decreases segs.len(),
{
    if segs.len() == 0 {
        Seq::empty()
    } else {
        joined(tb, segs.drop_last()) + tb.subrange(segs.last().0, segs.last().1)
    }
}

/// Two adjacent ranges of bytes join to the range they span.
proof fn lemma_subrange_concat(tb: Seq<u8>, a: int, b: int, c: int)
    requires
        0 <= a <= b <= c <= tb.len(),
    ensures
        tb.subrange(a, b) + tb.subrange(b, c) == tb.subrange(a, c),
{
    assert(tb.subrange(a, b) + tb.subrange(b, c) =~= tb.subrange(a, c));
}

/// Parts that follow one another without gap join to the bytes from the
/// first part's start to the last part's end.
proof fn lemma_joined(tb: Seq<u8>, segs: Seq<(int, int, bool)>)
    requires
        segs.len() > 0,
        forall|i: int| 0 <= i < segs.len() ==> 0 <= (#[trigger] segs[i]).0 <= segs[i].1 <= tb.len(),
        forall|i: int| 0 <= i < segs.len() - 1 ==> (#[trigger] segs[i]).1 == segs[i + 1].0,
    ensures
        segs[0].0 <= segs.last().1,
        joined(tb, segs) == tb.subrange(segs[0].0, segs.last().1),
    decreases segs.len(),
{
    if segs.len() > 1 {
        let init = segs.drop_last();
        assert forall|i: int| 0 <= i < init.len() implies 0 <= (#[trigger] init[i]).0 <= init[i].1 <= tb.len() by {
            assert(init[i] == segs[i]);
        }
        assert forall|i: int| 0 <= i < init.len() - 1 implies (#[trigger] init[i]).1 == init[i + 1].0 by {
            assert(init[i] == segs[i]);
            assert(init[i + 1] == segs[i + 1]);
        }
        lemma_joined(tb, init);
        let n = segs.len() as int;
        assert(init.last() == segs[n - 2]);
        assert(init[0] == segs[0]);
        assert(segs[n - 2].1 == segs[n - 1].0);
        assert(0 <= segs[0].0 <= segs[0].1 <= tb.len());
        assert(0 <= segs[n - 2].0 <= segs[n - 2].1);
        assert(segs[n - 1].0 <= segs[n - 1].1 <= tb.len());
        lemma_subrange_concat(tb, segs[0].0, segs[n - 1].0, segs[n - 1].1);
    } else {
        assert(segs.drop_last() =~= Seq::<(int, int, bool)>::empty());
        assert(joined(tb, segs.drop_last()) =~= Seq::<u8>::empty());
        assert(0 <= segs[0].0 <= segs[0].1);
        assert(joined(tb, segs) =~= tb.subrange(segs[0].0, segs.last().1));
    }
}

/// Drawing a host name never cuts a character and leaves nothing out: its
/// parts run from the start of the name to its end without gap or overlap,
/// in order, each begins and ends between characters, and printed one after
/// the other they give back the name.
pub proof fn law_segments_cover_name(text: Seq<char>, query: Seq<char>)
    ensures
        ({
            let tb = encode_utf8(text);
            let s = name_segments(text, query);
            &&& s.len() > 0
            &&& s[0].0 == 0
            &&& s[s.len() - 1].1 == tb.len()
            &&& forall|i: int|
                0 <= i < s.len() ==> 0 <= (#[trigger] s[i]).0 <= s[i].1 <= tb.len() && is_char_boundary(
                    tb,
                    s[i].0,
                ) && is_char_boundary(tb, s[i].1)
            &&& forall|i: int| 0 <= i < s.len() - 1 ==> (#[trigger] s[i]).1 == s[i + 1].0
            &&& joined(tb, s) == tb
        }),
{
    broadcast use vstd::utf8::is_char_boundary_start_end_of_seq, vstd::utf8::encode_utf8_valid_utf8;

    let tb = encode_utf8(text);
    assert(valid_utf8(tb));
    assert(is_char_boundary(tb, 0));
    lemma_segments_cover(tb, encode_utf8(query).len() as int, highlight_positions(text, query), 0);
    let s = name_segments(text, query);
    lemma_joined(tb, s);
    assert(tb.subrange(0, tb.len() as int) =~= tb);
}

} // verus!
