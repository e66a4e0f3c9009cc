use vstd::prelude::*;
use crate::text::{chars_of, string_of, strip_range, trim, CharClass};

verus! {

/// The character that ends a sentence.
pub const TERMINATOR: char = '.';

/// The chunk length aimed at when none is configured.
pub const DEFAULT_TARGET_SIZE: usize = 1200;

/// The slack around the target length when none is configured.
pub const DEFAULT_TOLERANCE: usize = 200;

/// A piece of a document: the characters `start..end` of the document, and
/// their text without the whitespace at its two ends.
#[derive(Debug)]
pub struct Chunk {
    /// The trimmed text of the piece.
    pub text: String,
    /// Offset of the first character of the piece in the document.
    pub start: usize,
    /// Offset one past the last character of the piece in the document.
    pub end: usize,
}

impl Chunk {
    /// The range of the document that the chunk covers.
    pub open spec fn span(&self) -> (int, int) {
        (self.start as int, self.end as int)
    }
}

/// The greatest position in `lo..hi` that holds a terminator.
pub open spec fn last_terminator(s: Seq<char>, lo: int, hi: int) -> Option<int>
    recommends
        0 <= lo,
        hi <= s.len(),
    decreases hi - lo,
{
    if hi <= lo {
        None
    } else if s[hi - 1] == TERMINATOR {
        Some(hi - 1)
    } else {
        last_terminator(s, lo, hi - 1)
    }
}

/// The least position in `lo..hi` that holds a terminator.
pub open spec fn first_terminator(s: Seq<char>, lo: int, hi: int) -> Option<int>
    recommends
        0 <= lo,
        hi <= s.len(),
    decreases hi - lo,
{
    if hi <= lo {
        None
    } else if s[lo] == TERMINATOR {
        Some(lo)
    } else {
        first_terminator(s, lo + 1, hi)
    }
}

/// Where a chunk that starts at `start` ends when more than
/// `target + tolerance` characters remain: one past the last terminator
/// among the first `target` characters; failing that, one past the first
/// terminator among the `tolerance` characters that follow; failing that,
/// after exactly `target` characters.
pub open spec fn split_point(s: Seq<char>, start: int, target: int, tolerance: int) -> int {
    match last_terminator(s, start, start + target) {
        Some(i) => i + 1,
        None => match first_terminator(s, start + target, start + target + tolerance) {
            Some(i) => i + 1,
            None => start + target,
        },
    }
}

/// Where a chunk that starts at `start` ends: at the end of the document
/// when at most `target + tolerance` characters remain, else at the split
/// point.
pub open spec fn next_cut(s: Seq<char>, start: int, target: int, tolerance: int) -> int {
    if s.len() - start <= target + tolerance {
        s.len() as int
    } else {
        split_point(s, start, target, tolerance)
    }
}

/// The ranges of the chunks that cover `s` from `start` on, in order.
pub open spec fn spans_from(s: Seq<char>, start: int, target: int, tolerance: int) -> Seq<
    (int, int),
>
    decreases s.len() - start,
    when 0 <= start && target >= 1 && tolerance >= 0
    via spans_from_decreases
{
    if start >= s.len() {
        Seq::empty()
    } else {
        let end = next_cut(s, start, target, tolerance);
        seq![(start, end)] + spans_from(s, end, target, tolerance)
    }
}

#[via_fn]
proof fn spans_from_decreases(s: Seq<char>, start: int, target: int, tolerance: int) {
    if start < s.len() {
        lemma_next_cut_bounds(s, start, target, tolerance);
    }
}

/// The ranges of the chunks of the document `s`.
pub open spec fn spans(s: Seq<char>, target: int, tolerance: int) -> Seq<(int, int)> {
    spans_from(s, 0, target, tolerance)
}

/// What `last_terminator` finds is a terminator in range with none after
/// it; it finds none only where the range holds none.
pub proof fn lemma_last_terminator(s: Seq<char>, lo: int, hi: int)
    ensures
        match last_terminator(s, lo, hi) {
            Some(i) => lo <= i < hi && s[i] == TERMINATOR && forall|j: int|
                i < j < hi ==> s[j] != TERMINATOR,
            None => forall|j: int| lo <= j < hi ==> s[j] != TERMINATOR,
        },
    decreases hi - lo,
{
    if hi > lo && s[hi - 1] != TERMINATOR {
        lemma_last_terminator(s, lo, hi - 1);
    }
}

/// What `first_terminator` finds is a terminator in range with none before
/// it; it finds none only where the range holds none.
pub proof fn lemma_first_terminator(s: Seq<char>, lo: int, hi: int)
    ensures
        match first_terminator(s, lo, hi) {
            Some(i) => lo <= i < hi && s[i] == TERMINATOR && forall|j: int|
                lo <= j < i ==> s[j] != TERMINATOR,
            None => forall|j: int| lo <= j < hi ==> s[j] != TERMINATOR,
        },
    decreases hi - lo,
{
    if hi > lo && s[lo] != TERMINATOR {
        lemma_first_terminator(s, lo + 1, hi);
    }
}

/// A split point lies after the start and within the window.
pub proof fn lemma_split_point_bounds(s: Seq<char>, start: int, target: int, tolerance: int)
    requires
        target >= 1,
        tolerance >= 0,
    ensures
        start < split_point(s, start, target, tolerance) <= start + target + tolerance,
{
    lemma_last_terminator(s, start, start + target);
    lemma_first_terminator(s, start + target, start + target + tolerance);
}

/// A chunk is never empty and never runs past the document.
pub proof fn lemma_next_cut_bounds(s: Seq<char>, start: int, target: int, tolerance: int)
    requires
        0 <= start < s.len(),
        target >= 1,
        tolerance >= 0,
    ensures
        start < next_cut(s, start, target, tolerance) <= s.len(),
{
    lemma_split_point_bounds(s, start, target, tolerance);
}

/// The parts of `s` that the ranges `sp` cover, in order.
pub open spec fn pieces(s: Seq<char>, sp: Seq<(int, int)>) -> Seq<Seq<char>> {
    sp.map_values(|p: (int, int)| s.subrange(p.0, p.1))
}

/// The chunk ranges are non-empty, lie within the document, follow one
/// another without gap or overlap, start at `start` and end at the end of
/// the document.
pub proof fn lemma_spans_tile(s: Seq<char>, start: int, target: int, tolerance: int)
    requires
        0 <= start <= s.len(),
        target >= 1,
        tolerance >= 0,
    ensures
        ({
            let sp = spans_from(s, start, target, tolerance);
            &&& start < s.len() <==> sp.len() > 0
            &&& sp.len() > 0 ==> sp[0].0 == start && sp.last().1 == s.len()
            &&& forall|i: int| 0 <= i < sp.len() ==> 0 <= (#[trigger] sp[i]).0 < sp[i].1 <= s.len()
            &&& forall|i: int| 0 <= i < sp.len() - 1 ==> (#[trigger] sp[i + 1]).0 == sp[i].1
        }),
    decreases s.len() - start,
{
    if start < s.len() {
        let end = next_cut(s, start, target, tolerance);
        lemma_next_cut_bounds(s, start, target, tolerance);
        lemma_spans_tile(s, end, target, tolerance);
        let rest = spans_from(s, end, target, tolerance);
        let sp = spans_from(s, start, target, tolerance);
        assert(sp == seq![(start, end)] + rest);
        assert forall|i: int| 0 <= i < sp.len() implies 0 <= (#[trigger] sp[i]).0 < sp[i].1
            <= s.len() by {
            if i > 0 {
                assert(sp[i] == rest[i - 1]);
            }
        }
        assert forall|i: int| 0 <= i < sp.len() - 1 implies (#[trigger] sp[i + 1]).0
            == sp[i].1 by {
            assert(sp[i + 1] == rest[i]);
            if i > 0 {
                assert(sp[i] == rest[i - 1]);
                assert(rest[(i - 1) + 1].0 == rest[i - 1].1);
            } else {
                assert(sp[0] == (start, end));
                assert(rest[0].0 == end);
            }
        }
        if rest.len() > 0 {
            assert(sp.last() == rest.last());
        }
    }
}

/// The untrimmed pieces of the chunks from `start` on, put together in
/// order, are the document from `start` on.
pub proof fn lemma_reconstruction_from(s: Seq<char>, start: int, target: int, tolerance: int)
    requires
        0 <= start <= s.len(),
        target >= 1,
        tolerance >= 0,
    ensures
        pieces(s, spans_from(s, start, target, tolerance)).flatten() == s.skip(start),
    decreases s.len() - start,
{
    if start < s.len() {
        let end = next_cut(s, start, target, tolerance);
        lemma_next_cut_bounds(s, start, target, tolerance);
        lemma_reconstruction_from(s, end, target, tolerance);
        let rest = spans_from(s, end, target, tolerance);
        let all = pieces(s, spans_from(s, start, target, tolerance));
        assert(all.drop_first() =~= pieces(s, rest));
        assert(all.first() == s.subrange(start, end));
        assert(s.subrange(start, end) + s.skip(end) =~= s.skip(start));
    } else {
        assert(s.skip(start) =~= Seq::<char>::empty());
    }
}

/// Reconstruction: the untrimmed pieces of the chunks of a document, put
/// together in order, are the document.
pub proof fn lemma_reconstruction(s: Seq<char>, target: int, tolerance: int)
    requires
        target >= 1,
        tolerance >= 0,
    ensures
        pieces(s, spans(s, target, tolerance)).flatten() == s,
{
    lemma_reconstruction_from(s, 0, target, tolerance);
    assert(s.skip(0) =~= s);
}

/// Boundary preference: where more than `target + tolerance` characters
/// remain after `start` and the only terminator among the next
/// `target + tolerance` characters lies at `p`, among the first `target`
/// of them, the chunk that starts at `start` ends at `p + 1`.
pub proof fn lemma_boundary_preference(
    s: Seq<char>,
    start: int,
    target: int,
    tolerance: int,
    p: int,
)
    requires
        0 <= start,
        target >= 1,
        tolerance >= 0,
        s.len() - start > target + tolerance,
        start <= p < start + target,
        s[p] == TERMINATOR,
        forall|j: int| start <= j < start + target + tolerance && j != p ==> s[j] != TERMINATOR,
    ensures
        next_cut(s, start, target, tolerance) == p + 1,
{
    lemma_last_terminator(s, start, start + target);
}

/// Forced cuts: a document of `3 * target` characters without a terminator
/// is cut, with a tolerance below the target, into exactly three chunks of
/// `target` characters each.
pub proof fn lemma_forced_cuts(s: Seq<char>, target: int, tolerance: int)
    requires
        target >= 1,
        0 <= tolerance < target,
        s.len() == 3 * target,
        forall|j: int| 0 <= j < s.len() ==> s[j] != TERMINATOR,
    ensures
        spans(s, target, tolerance) == seq![
            (0int, target),
            (target, 2 * target),
            (2 * target, 3 * target),
        ],
{
    lemma_forced_cut_at(s, 0, target, tolerance);
    lemma_forced_cut_at(s, target, target, tolerance);
    let last = spans_from(s, 2 * target, target, tolerance);
    assert(next_cut(s, 2 * target, target, tolerance) == 3 * target);
    assert(spans_from(s, 3 * target, target, tolerance) =~= Seq::<(int, int)>::empty());
    assert(last =~= seq![(2 * target, 3 * target)]);
    let second = spans_from(s, target, target, tolerance);
    assert(second =~= seq![(target, 2 * target)] + last);
    assert(spans(s, target, tolerance) =~= seq![(0int, target)] + second);
}

/// Where no terminator lies in the window after `start`, the split point
/// is after exactly `target` characters.
pub proof fn lemma_forced_cut_at(s: Seq<char>, start: int, target: int, tolerance: int)
    requires
        0 <= start,
        target >= 1,
        tolerance >= 0,
        start + target + tolerance <= s.len(),
        forall|j: int| start <= j < start + target + tolerance ==> s[j] != TERMINATOR,
    ensures
        split_point(s, start, target, tolerance) == start + target,
{
    lemma_last_terminator(s, start, start + target);
    lemma_first_terminator(s, start + target, start + target + tolerance);
}

/// The end of the chunk that starts at `start`, where more than
/// `target + tolerance` characters remain.
pub fn find_split(chars: &Vec<char>, start: usize, target: usize, tolerance: usize) -> (r: usize)
    requires
        target >= 1,
        start + target + tolerance < chars.len(),
    ensures
        r == split_point(chars@, start as int, target as int, tolerance as int),
        start < r <= start + target + tolerance,
{
    let mid = start + target;
    let hi = mid + tolerance;
    proof {
        lemma_split_point_bounds(chars@, start as int, target as int, tolerance as int);
    }
    let mut k: usize = mid;
    while k > start
        invariant
            start <= k <= mid < chars.len(),
            mid == start + target,
            hi == mid + tolerance,
            last_terminator(chars@, start as int, mid as int) == last_terminator(
                chars@,
                start as int,
                k as int,
            ),
        decreases k - start,
    {
        if chars[k - 1] == TERMINATOR {
            return k;
        }
        k -= 1;
    }
    let mut j: usize = mid;
    while j < hi
        invariant
            mid <= j <= hi < chars.len(),
            mid == start + target,
            hi == mid + tolerance,
            target >= 1,
            last_terminator(chars@, start as int, mid as int) is None,
            first_terminator(chars@, mid as int, hi as int) == first_terminator(
                chars@,
                j as int,
                hi as int,
            ),
        decreases hi - j,
    {
        if chars[j] == TERMINATOR {
            return j + 1;
        }
        j += 1;
    }
    mid
}

/// Splits `text` into chunks of about `target_size` characters that end
/// after a sentence terminator where one lies near enough.
///
/// The chunks cover the text without gap or overlap, in order. While more
/// than `target_size + tolerance` characters remain, a chunk ends one past
/// the last terminator among its first `target_size` characters, else one
/// past the first terminator among the next `tolerance` characters, else
/// after `target_size` characters. The rest is the last chunk. Lengths and
/// offsets count characters, so no cut falls inside an encoded character.
pub fn chunk_text(text: &str, target_size: usize, tolerance: usize) -> (chunks: Vec<Chunk>)
    requires
        target_size >= 1,
    ensures
        chunks@.map_values(|c: Chunk| c.span()) == spans(
            text@,
            target_size as int,
            tolerance as int,
        ),
        forall|i: int|
            0 <= i < chunks.len() ==> (#[trigger] chunks[i]).text@ == trim(
                text@.subrange(chunks[i].start as int, chunks[i].end as int),
            ),
{
    let chars = chars_of(text);
    let n = chars.len();
    let ghost s = text@;
    let ghost t = target_size as int;
    let ghost tol = tolerance as int;
    let mut chunks: Vec<Chunk> = Vec::new();
    let mut start: usize = 0;
    proof {
        assert(chunks@.map_values(|c: Chunk| c.span()) =~= Seq::<(int, int)>::empty());
    }
    while start < n
        invariant
            start <= n == chars.len(),
            chars@ == s,
            t == target_size as int,
            tol == tolerance as int,
            target_size >= 1,
            spans(s, t, tol) == chunks@.map_values(|c: Chunk| c.span()) + spans_from(
                s,
                start as int,
                t,
                tol,
            ),
            forall|i: int|
                0 <= i < chunks.len() ==> (#[trigger] chunks[i]).text@ == trim(
                    s.subrange(chunks[i].start as int, chunks[i].end as int),
                ),
        decreases n - start,
    {
        let remaining = n - start;
        let end = if remaining <= target_size || remaining - target_size <= tolerance {
            n
        } else {
            find_split(&chars, start, target_size, tolerance)
        };
        proof {
            lemma_next_cut_bounds(s, start as int, t, tol);
            assert(end == next_cut(s, start as int, t, tol));
        }
        let (a, b) = strip_range(&chars, start, end, CharClass::Whitespace);
        let piece = Chunk { text: string_of(&chars, a, b), start, end };
        let ghost before = chunks@.map_values(|c: Chunk| c.span());
        chunks.push(piece);
        proof {
            assert(chunks@.map_values(|c: Chunk| c.span()) =~= before.push(
                (start as int, end as int),
            ));
            assert(before.push((start as int, end as int)) + spans_from(s, end as int, t, tol)
                =~= before + (seq![(start as int, end as int)] + spans_from(
                s,
                end as int,
                t,
                tol,
            )));
        }
        start = end;
    }
    proof {
        assert(chunks@.map_values(|c: Chunk| c.span()) + Seq::<(int, int)>::empty()
            =~= chunks@.map_values(|c: Chunk| c.span()));
    }
    chunks
}

} // verus!
