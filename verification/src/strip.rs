//! Taking the colour markers out of a rendered line again, and when that gives
//! back the line that was rendered.

use vstd::prelude::*;
use vstd::string::*;
use crate::encoding::split_chars;
use crate::highlight::{
    clip, highlighted, lemma_markers, mark_off, mark_on, match_starts, render, RED, RESET,
};
use crate::text::{chars_of, occurs_at, starts_at};

verus! {

/// The length of the marker that stands in `text` at position `at`, or 0 if
/// none stands there.
pub open spec fn marker_at(text: Seq<char>, at: int) -> int {
    if occurs_at(mark_on(), text, at) {
        mark_on().len() as int
    } else if occurs_at(mark_off(), text, at) {
        mark_off().len() as int
    } else {
        0
    }
}

/// `text` without its markers: read from left to right, every marker met is
/// left out and every other character is kept.
pub open spec fn strip_markers(text: Seq<char>) -> Seq<char>
    decreases text.len(),
{
    let width = marker_at(text, 0);
    if text.len() == 0 {
        text
    } else if width > 0 {
        strip_markers(text.skip(width))
    } else {
        seq![text[0]] + strip_markers(text.skip(1))
    }
}

/// Where a marker stands in a text is told by the text from that place on.
proof fn lemma_marker_of_rest(text: Seq<char>, at: int)
    requires
        0 <= at <= text.len(),
    ensures
        marker_at(text.skip(at), 0) == marker_at(text, at),
{
    let rest = text.skip(at);
    if at + 5 <= text.len() {
        assert(rest.subrange(0, 5) =~= text.subrange(at, at + 5));
    }
    if at + 4 <= text.len() {
        assert(rest.subrange(0, 4) =~= text.subrange(at, at + 4));
    }
}

/// Returns `text` without its markers.
pub fn remove_markers(text: &str) -> (out: String)
    ensures
        out@ == strip_markers(text@),
{
    let chars = chars_of(text);
    let on = chars_of(RED);
    let off = chars_of(RESET);
    proof {
        lemma_markers();
        assert(text@.skip(0) =~= text@);
        assert(text@.subrange(0, 0) =~= Seq::<char>::empty());
    }
    let n = chars.len();
    let mut out = String::new();
    // What is left of `text` to copy: `text` from position `kept` on.
    let mut rest: &str = text;
    let mut kept: usize = 0;
    let mut at: usize = 0;
    while at < n
        invariant
            chars@ == text@,
            n == chars@.len(),
            on@ == mark_on(),
            off@ == mark_off(),
            kept <= at <= n,
            rest@ == text@.skip(kept as int),
            out@ + text@.subrange(kept as int, at as int) + strip_markers(text@.skip(at as int))
                == strip_markers(text@),
        decreases n - at,
    {
        proof {
            lemma_marker_of_rest(text@, at as int);
        }
        let ghost ahead = text@.skip(at as int);
        let width: usize = if starts_at(on.as_slice(), chars.as_slice(), at) {
            5
        } else if starts_at(off.as_slice(), chars.as_slice(), at) {
            4
        } else {
            0
        };
        if width > 0 {
            let (run, behind_run) = split_chars(rest, at - kept);
            let (_, behind) = split_chars(behind_run, width);
            proof {
                assert(run@ =~= rest@.take(run@.len() as int));
                assert(behind_run@ =~= rest@.skip(run@.len() as int));
                assert(behind@ =~= behind_run@.skip(width as int));
                assert(run@ =~= text@.subrange(kept as int, at as int));
                assert(behind@ =~= text@.skip(at + width));
                assert(ahead.skip(width as int) =~= text@.skip(at + width));
                assert(text@.subrange(at + width, at + width) =~= Seq::<char>::empty());
            }
            out.append(run);
            rest = behind;
            at += width;
            kept = at;
        } else {
            at += 1;
            proof {
                assert(ahead.skip(1) =~= text@.skip(at as int));
                assert(text@.subrange(kept as int, at as int) =~= text@.subrange(
                    kept as int,
                    at - 1,
                ) + seq![ahead[0]]);
            }
        }
    }
    proof {
        assert(text@.subrange(kept as int, n as int) =~= rest@);
    }
    out.append(rest);
    out
}

/// One of the occurrences at `starts`, each `width` long, starts or ends
/// strictly between `lo` and `hi`.
pub open spec fn cut_between(starts: Seq<int>, width: int, lo: int, hi: int) -> bool {
    exists|i: int|
        0 <= i < starts.len() && (lo < #[trigger] starts[i] < hi || lo < starts[i] + width < hi)
}

/// Every marker that stands in `line` from `from` on is cut by the
/// occurrences at `starts`.
pub open spec fn markers_cut_from(line: Seq<char>, starts: Seq<int>, width: int, from: int) -> bool {
    forall|at: int|
        from <= at < line.len() && #[trigger] marker_at(line, at) > 0 ==> cut_between(
            starts,
            width,
            at,
            at + marker_at(line, at),
        )
}

/// No marker that `line` holds of its own survives the highlighting of
/// `query` in it: wherever a marker stands in `line`, an occurrence of the
/// query starts or ends strictly inside it, so that a marker put in by the
/// highlighting parts it. A line that holds no marker meets this.
pub open spec fn markers_cut(line: Seq<char>, query: Seq<char>) -> bool {
    markers_cut_from(line, match_starts(query, line, 0), query.len() as int, 0)
}

/// The occurrences at `starts` lie in order between `from` and `len`, none
/// overlapping the next.
spec fn spaced(starts: Seq<int>, width: int, from: int, len: int) -> bool {
    &&& forall|i: int| 0 <= i < starts.len() ==> from <= #[trigger] starts[i] <= len - width
    &&& forall|i: int, j: int|
        0 <= i < j < starts.len() ==> #[trigger] starts[i] + width <= #[trigger] starts[j]
}

/// The scan finds its occurrences in order and without overlap.
proof fn lemma_match_starts_spaced(query: Seq<char>, text: Seq<char>, from: int)
    requires
        0 <= from,
    ensures
        spaced(match_starts(query, text, from), query.len() as int, from, text.len() as int),
    decreases text.len() - from,
{
    let width = query.len() as int;
    if query.len() == 0 || from + query.len() > text.len() {
    } else if occurs_at(query, text, from) {
        let rest = match_starts(query, text, from + width);
        lemma_match_starts_spaced(query, text, from + width);
        let starts = seq![from] + rest;
        assert forall|i: int, j: int| 0 <= i < j < starts.len() implies #[trigger] starts[i] + width
            <= #[trigger] starts[j] by {
            assert(starts[j] == rest[j - 1]);
            if i > 0 {
                assert(starts[i] == rest[i - 1]);
            }
        }
        assert forall|i: int| 0 <= i < starts.len() implies from <= #[trigger] starts[i]
            <= text.len() - width by {
            if i > 0 {
                assert(starts[i] == rest[i - 1]);
            }
        }
    } else {
        lemma_match_starts_spaced(query, text, from + 1);
    }
}

/// A text that holds no marker is its own stripped form.
proof fn lemma_strip_plain(text: Seq<char>)
    requires
        forall|at: int| 0 <= at < text.len() ==> #[trigger] marker_at(text, at) == 0,
    ensures
        strip_markers(text) == text,
    decreases text.len(),
{
    if text.len() > 0 {
        let rest = text.skip(1);
        assert forall|at: int| 0 <= at < rest.len() implies #[trigger] marker_at(rest, at) == 0 by {
            lemma_marker_in_part(text, 1, text.len() as int, at);
            assert(text.subrange(1, text.len() as int) =~= rest);
            assert(marker_at(text, at + 1) == 0);
        }
        lemma_strip_plain(rest);
        assert(marker_at(text, 0) == 0);
        assert(seq![text[0]] + rest =~= text);
    }
}

/// A marker that stands in a part of a text stands in the text, at the same
/// place.
proof fn lemma_marker_in_part(text: Seq<char>, lo: int, hi: int, at: int)
    requires
        0 <= lo <= hi <= text.len(),
        0 <= at,
    ensures
        marker_at(text.subrange(lo, hi), at) > 0 ==> marker_at(text, lo + at) == marker_at(
            text.subrange(lo, hi),
            at,
        ),
{
    let part = text.subrange(lo, hi);
    if occurs_at(mark_on(), part, at) {
        assert(text.subrange(lo + at, lo + at + 5) =~= part.subrange(at, at + 5));
    } else if occurs_at(mark_off(), part, at) {
        assert(text.subrange(lo + at, lo + at + 4) =~= part.subrange(at, at + 4));
        if occurs_at(mark_on(), text, lo + at) {
            assert(text.subrange(lo + at, lo + at + 5)[2] == '3');
            assert(part.subrange(at, at + 4)[2] == '0');
        }
    }
}

/// Whether a marker begins a text does not depend on what follows the text,
/// if that begins with an escape character.
proof fn lemma_marker_before_escape(text: Seq<char>, next: Seq<char>)
    requires
        text.len() > 0,
        next.len() > 0 ==> next[0] == '\x1b',
    ensures
        marker_at(text + next, 0) == marker_at(text, 0),
{
    let all = text + next;
    let n = text.len() as int;
    if occurs_at(mark_on(), all, 0) {
        if n < 5 {
            assert(all.subrange(0, 5)[n] == all[n]);
            assert(all[n] == next[0]);
        }
        assert(text.subrange(0, 5) =~= all.subrange(0, 5));
    }
    if occurs_at(mark_on(), text, 0) {
        assert(text.subrange(0, 5) =~= all.subrange(0, 5));
    }
    if occurs_at(mark_off(), all, 0) {
        if n < 4 {
            assert(all.subrange(0, 4)[n] == all[n]);
            assert(all[n] == next[0]);
        }
        assert(text.subrange(0, 4) =~= all.subrange(0, 4));
    }
    if occurs_at(mark_off(), text, 0) {
        assert(text.subrange(0, 4) =~= all.subrange(0, 4));
    }
}

/// Stripping goes through a join whose second part is empty or begins with an
/// escape character: no marker can reach across such a join.
proof fn lemma_strip_join(text: Seq<char>, next: Seq<char>)
    requires
        next.len() > 0 ==> next[0] == '\x1b',
    ensures
        strip_markers(text + next) == strip_markers(text) + strip_markers(next),
    decreases text.len(),
{
    if text.len() == 0 {
        assert(text + next =~= next);
        assert(strip_markers(text) + strip_markers(next) =~= strip_markers(next));
    } else {
        lemma_marker_before_escape(text, next);
        let width = marker_at(text, 0);
        if width > 0 {
            assert((text + next).skip(width) =~= text.skip(width) + next);
            lemma_strip_join(text.skip(width), next);
        } else {
            assert((text + next).skip(1) =~= text.skip(1) + next);
            lemma_strip_join(text.skip(1), next);
            assert(seq![text[0]] + (strip_markers(text.skip(1)) + strip_markers(next)) =~= (
            seq![text[0]] + strip_markers(text.skip(1))) + strip_markers(next));
        }
    }
}

/// A part of `line` that no occurrence starts or ends in holds no marker, if
/// every marker of `line` is cut.
proof fn lemma_part_plain(line: Seq<char>, starts: Seq<int>, width: int, from: int, lo: int, hi: int)
    requires
        0 <= from <= lo <= hi <= line.len(),
        markers_cut_from(line, starts, width, from),
        forall|i: int|
            0 <= i < starts.len() ==> !(lo < #[trigger] starts[i] < hi) && !(lo < starts[i] + width
                < hi),
    ensures
        strip_markers(line.subrange(lo, hi)) == line.subrange(lo, hi),
{
    let part = line.subrange(lo, hi);
    assert forall|at: int| 0 <= at < part.len() implies #[trigger] marker_at(part, at) == 0 by {
        if marker_at(part, at) > 0 {
            lemma_marker_in_part(line, lo, hi, at);
            assert(marker_at(line, lo + at) > 0);
            assert(cut_between(starts, width, lo + at, lo + at + marker_at(line, lo + at)));
        }
    }
    lemma_strip_plain(part);
}

/// Behind the first of spaced occurrences, the others are spaced too.
proof fn lemma_rest_spaced(starts: Seq<int>, width: int, from: int, len: int)
    requires
        starts.len() > 0,
        spaced(starts, width, from, len),
    ensures
        spaced(starts.drop_first(), width, starts[0] + width, len),
{
    let rest = starts.drop_first();
    assert forall|i: int| 0 <= i < rest.len() implies starts[0] + width <= #[trigger] rest[i] <= len
        - width by {
        assert(rest[i] == starts[i + 1]);
        assert(starts[0] + width <= starts[i + 1]);
    }
    assert forall|i: int, j: int| 0 <= i < j < rest.len() implies #[trigger] rest[i] + width
        <= #[trigger] rest[j] by {
        assert(rest[i] == starts[i + 1]);
        assert(rest[j] == starts[j + 1]);
    }
}

/// Behind the first occurrence, every marker is cut by one of the others.
proof fn lemma_rest_cut(line: Seq<char>, starts: Seq<int>, width: int, from: int)
    requires
        starts.len() > 0,
        0 < width,
        markers_cut_from(line, starts, width, from),
        from <= starts[0],
    ensures
        markers_cut_from(line, starts.drop_first(), width, starts[0] + width),
{
    let rest = starts.drop_first();
    assert forall|p: int|
        starts[0] + width <= p < line.len() && #[trigger] marker_at(line, p) > 0 implies cut_between(
        rest,
        width,
        p,
        p + marker_at(line, p),
    ) by {
        let hi = p + marker_at(line, p);
        assert(cut_between(starts, width, p, hi));
        let i = choose|i: int|
            0 <= i < starts.len() && (p < #[trigger] starts[i] < hi || p < starts[i] + width < hi);
        assert(i > 0);
        assert(rest[i - 1] == starts[i]);
    }
}

/// Stripping takes the two markers off a wrapped text, and goes on inside it
/// and behind it.
proof fn lemma_strip_wrapped(shown: Seq<char>, tail: Seq<char>)
    ensures
        strip_markers(mark_on() + shown + mark_off() + tail) == strip_markers(shown)
            + strip_markers(tail),
{
    let closing = mark_off() + tail;
    let wrapped = shown + closing;
    let opening = mark_on() + wrapped;
    assert(mark_on() + shown + mark_off() + tail =~= opening);
    assert(opening.subrange(0, 5) =~= mark_on());
    assert(opening.skip(5) =~= wrapped);
    assert(strip_markers(opening) == strip_markers(wrapped));
    lemma_strip_join(shown, closing);
    assert(closing.subrange(0, 4) =~= mark_off());
    assert(!occurs_at(mark_on(), closing, 0)) by {
        if closing.len() >= 5 {
            assert(closing.subrange(0, 5)[2] == '0');
        }
    }
    assert(closing.skip(4) =~= tail);
    assert(strip_markers(closing) == strip_markers(tail));
}

/// Stripping a rendering strips its parts one by one: what stands before the
/// first occurrence, the occurrence, and the rendering of what follows.
proof fn lemma_strip_render_parts(line: Seq<char>, starts: Seq<int>, width: int, from: int)
    requires
        starts.len() > 0,
        0 < width,
        0 <= from,
        spaced(starts, width, from, line.len() as int),
    ensures
        strip_markers(render(line, starts, width, from)) == strip_markers(
            line.subrange(from, starts[0]),
        ) + strip_markers(line.subrange(starts[0], starts[0] + width)) + strip_markers(
            render(line, starts.drop_first(), width, starts[0] + width),
        ),
{
    let at = starts[0];
    let gap = line.subrange(from, at);
    let shown = line.subrange(at, at + width);
    let tail = render(line, starts.drop_first(), width, at + width);
    let wrapped = mark_on() + shown + mark_off() + tail;
    assert(render(line, starts, width, from) =~= gap + wrapped) by {
        assert(clip(line, from, at) =~= gap);
        assert(clip(line, at, at + width) =~= shown);
    }
    lemma_strip_join(gap, wrapped);
    lemma_strip_wrapped(shown, tail);
    assert(strip_markers(gap) + (strip_markers(shown) + strip_markers(tail)) =~= strip_markers(gap)
        + strip_markers(shown) + strip_markers(tail));
}

/// Stripping a rendering gives back what was rendered, if every marker that
/// the line holds of its own is cut.
proof fn lemma_strip_render(line: Seq<char>, starts: Seq<int>, width: int, from: int)
    requires
        0 < width,
        0 <= from <= line.len(),
        spaced(starts, width, from, line.len() as int),
        markers_cut_from(line, starts, width, from),
    ensures
        strip_markers(render(line, starts, width, from)) == line.skip(from),
    decreases starts.len(),
{
    let len = line.len() as int;
    if starts.len() == 0 {
        lemma_part_plain(line, starts, width, from, from, len);
        assert(clip(line, from, len) =~= line.subrange(from, len));
        assert(line.skip(from) =~= line.subrange(from, len));
    } else {
        let at = starts[0];
        let rest = starts.drop_first();
        let gap = line.subrange(from, at);
        let shown = line.subrange(at, at + width);
        let tail = render(line, rest, width, at + width);
        assert(strip_markers(gap) == gap) by {
            assert forall|i: int| 0 <= i < starts.len() implies !(from < #[trigger] starts[i] < at)
                && !(from < starts[i] + width < at) by {
                if i > 0 {
                    assert(starts[0] + width <= starts[i]);
                }
            }
            lemma_part_plain(line, starts, width, from, from, at);
        }
        assert(strip_markers(shown) == shown) by {
            assert forall|i: int| 0 <= i < starts.len() implies !(at < #[trigger] starts[i] < at
                + width) && !(at < starts[i] + width < at + width) by {
                if i > 0 {
                    assert(starts[0] + width <= starts[i]);
                }
            }
            lemma_part_plain(line, starts, width, from, at, at + width);
        }
        assert(strip_markers(tail) == line.skip(at + width)) by {
            lemma_rest_spaced(starts, width, from, len);
            lemma_rest_cut(line, starts, width, from);
            lemma_strip_render(line, rest, width, at + width);
        }
        lemma_strip_render_parts(line, starts, width, from);
        assert(line.skip(from) =~= gap + shown + line.skip(at + width));
    }
}

/// Stripping never makes a text longer.
proof fn lemma_strip_len(text: Seq<char>)
    ensures
        strip_markers(text).len() <= text.len(),
    decreases text.len(),
{
    if text.len() > 0 {
        let width = marker_at(text, 0);
        if width > 0 {
            lemma_strip_len(text.skip(width));
        } else {
            lemma_strip_len(text.skip(1));
        }
    }
}

/// Stripping makes a text that holds a marker shorter.
proof fn lemma_strip_shortens(text: Seq<char>, at: int)
    requires
        0 <= at < text.len(),
        marker_at(text, at) > 0,
    ensures
        strip_markers(text).len() < text.len(),
    decreases text.len(),
{
    let width = marker_at(text, 0);
    if width > 0 {
        lemma_strip_len(text.skip(width));
    } else {
        let rest = text.skip(1);
        assert(marker_at(rest, at - 1) > 0) by {
            if occurs_at(mark_on(), text, at) {
                assert(rest.subrange(at - 1, at - 1 + 5) =~= text.subrange(at, at + 5));
            } else {
                assert(rest.subrange(at - 1, at - 1 + 4) =~= text.subrange(at, at + 4));
            }
        }
        lemma_strip_shortens(rest, at - 1);
    }
}

/// A marker that stands in a text within a part of it stands in that part.
proof fn lemma_marker_of_part(text: Seq<char>, lo: int, hi: int, at: int)
    requires
        0 <= lo <= at,
        hi <= text.len(),
        marker_at(text, at) > 0,
        at + marker_at(text, at) <= hi,
    ensures
        marker_at(text.subrange(lo, hi), at - lo) > 0,
{
    let part = text.subrange(lo, hi);
    if occurs_at(mark_on(), text, at) {
        assert(part.subrange(at - lo, at - lo + 5) =~= text.subrange(at, at + 5));
    } else {
        assert(part.subrange(at - lo, at - lo + 4) =~= text.subrange(at, at + 4));
    }
}

/// Stripping a rendering gives at most as many characters as were rendered,
/// and fewer if the line holds a marker of its own that is not cut.
proof fn lemma_strip_render_len(
    line: Seq<char>,
    starts: Seq<int>,
    width: int,
    from: int,
    uncut: Option<int>,
)
    requires
        0 < width,
        0 <= from <= line.len(),
        spaced(starts, width, from, line.len() as int),
        uncut matches Some(at) ==> from <= at < line.len() && marker_at(line, at) > 0
            && !cut_between(starts, width, at, at + marker_at(line, at)),
    ensures
        strip_markers(render(line, starts, width, from)).len() <= line.len() - from,
        uncut is Some ==> strip_markers(render(line, starts, width, from)).len() < line.len()
            - from,
    decreases starts.len(),
{
    let len = line.len() as int;
    if starts.len() == 0 {
        let shown = line.subrange(from, len);
        assert(clip(line, from, len) =~= shown);
        lemma_strip_len(shown);
        if let Some(at) = uncut {
            lemma_marker_of_part(line, from, len, at);
            lemma_strip_shortens(shown, at - from);
        }
    } else {
        let first = starts[0];
        let rest = starts.drop_first();
        let gap = line.subrange(from, first);
        let shown = line.subrange(first, first + width);
        lemma_strip_render_parts(line, starts, width, from);
        lemma_rest_spaced(starts, width, from, len);
        lemma_strip_len(gap);
        lemma_strip_len(shown);
        match uncut {
            Some(at) => {
                let end = at + marker_at(line, at);
                assert(!(at < starts[0] < end) && !(at < starts[0] + width < end));
                if end <= first {
                    lemma_marker_of_part(line, from, first, at);
                    lemma_strip_shortens(gap, at - from);
                    lemma_strip_render_len(line, rest, width, first + width, None);
                } else if at < first + width {
                    lemma_marker_of_part(line, first, first + width, at);
                    lemma_strip_shortens(shown, at - first);
                    lemma_strip_render_len(line, rest, width, first + width, None);
                } else {
                    assert(!cut_between(rest, width, at, end)) by {
                        if cut_between(rest, width, at, end) {
                            let i = choose|i: int|
                                0 <= i < rest.len() && (at < #[trigger] rest[i] < end || at < rest[i]
                                    + width < end);
                            assert(starts[i + 1] == rest[i]);
                        }
                    }
                    lemma_strip_render_len(line, rest, width, first + width, uncut);
                }
            },
            None => {
                lemma_strip_render_len(line, rest, width, first + width, None);
            },
        }
    }
}

/// Stripping the markers from a line that was highlighted against itself
/// gives back the line, provided that no marker which the line held before
/// survives the highlighting.
pub proof fn lemma_strip_highlighted(line: Seq<char>, query: Seq<char>)
    requires
        markers_cut(line, query),
    ensures
        strip_markers(highlighted(line, line, query)) == line,
{
    let starts = match_starts(query, line, 0);
    if query.len() == 0 {
        lemma_part_plain(line, starts, 0, 0, 0, line.len() as int);
        assert(clip(line, 0, line.len() as int) =~= line);
        assert(line.subrange(0, line.len() as int) =~= line);
    } else {
        lemma_match_starts_spaced(query, line, 0);
        lemma_strip_render(line, starts, query.len() as int, 0);
        assert(line.skip(0) =~= line);
    }
}

/// The condition of `lemma_strip_highlighted` leaves out no line that it
/// need not: where a marker of the line's own survives the highlighting,
/// stripping takes it out too, and what is left is shorter than the line.
pub proof fn lemma_strip_highlighted_needs_cut(line: Seq<char>, query: Seq<char>)
    requires
        !markers_cut(line, query),
    ensures
        strip_markers(highlighted(line, line, query)).len() < line.len(),
{
    let starts = match_starts(query, line, 0);
    let width = query.len() as int;
    let at = choose|at: int|
        0 <= at < line.len() && #[trigger] marker_at(line, at) > 0 && !cut_between(
            starts,
            width,
            at,
            at + marker_at(line, at),
        );
    if query.len() == 0 {
        assert(clip(line, 0, line.len() as int) =~= line);
        lemma_strip_shortens(line, at);
    } else {
        lemma_match_starts_spaced(query, line, 0);
        lemma_strip_render_len(line, starts, width, 0, Some(at));
    }
}

} // verus!
