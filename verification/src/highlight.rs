//! Rendering a line with every occurrence of a query wrapped in colour
//! markers.

use vstd::prelude::*;
use vstd::string::*;
use crate::encoding::split_chars;
use crate::text::{chars_of, occurs_at, occurs_in, starts_at};

verus! {

/// The marker put before each occurrence: the escape sequence for a red
/// foreground.
pub const RED: &'static str = "\x1b[31m";

/// The marker put behind each occurrence: the escape sequence that resets the
/// colours.
pub const RESET: &'static str = "\x1b[0m";

/// The characters of `RED`: `ESC [ 3 1 m`.
pub open spec fn mark_on() -> Seq<char> {
    seq!['\x1b', '[', '3', '1', 'm']
}

/// The characters of `RESET`: `ESC [ 0 m`.
pub open spec fn mark_off() -> Seq<char> {
    seq!['\x1b', '[', '0', 'm']
}

/// The two markers hold the characters that `mark_on` and `mark_off` list.
pub proof fn lemma_markers()
    ensures
        RED@ == mark_on(),
        RESET@ == mark_off(),
{
    reveal_strlit("\x1b[31m");
    reveal_strlit("\x1b[0m");
    assert(RED@ =~= mark_on());
    assert(RESET@ =~= mark_off());
}

/// The positions at which `query` is found in `text` by a scan from left to
/// right that starts at `from` and resumes behind each occurrence found, so
/// that no two of them overlap. An empty query is found nowhere.
pub open spec fn match_starts(query: Seq<char>, text: Seq<char>, from: int) -> Seq<int>
    decreases text.len() - from,
{
    if query.len() == 0 || from < 0 || from + query.len() > text.len() {
        Seq::empty()
    } else if occurs_at(query, text, from) {
        seq![from] + match_starts(query, text, from + query.len())
    } else {
        match_starts(query, text, from + 1)
    }
}

/// The part of `line` from position `from` up to `to`. Positions behind the
/// end of the line select nothing.
pub open spec fn clip(line: Seq<char>, from: int, to: int) -> Seq<char> {
    let end = if to < line.len() { to } else { line.len() as int };
    let start = if from < end { from } else { end };
    line.subrange(start, end)
}

/// `line` from position `from` on, with the `width` characters at each of
/// `starts` wrapped in markers and everything between them copied as it is.
pub open spec fn render(line: Seq<char>, starts: Seq<int>, width: int, from: int) -> Seq<char>
    decreases starts.len(),
{
    if starts.len() == 0 {
        clip(line, from, line.len() as int)
    } else {
        let at = starts[0];
        clip(line, from, at) + mark_on() + clip(line, at, at + width) + mark_off() + render(
            line,
            starts.drop_first(),
            width,
            at + width,
        )
    }
}

/// `line` with highlights: the occurrences of `query` are located in `check`,
/// and the characters of `line` at the same positions are wrapped in markers.
pub open spec fn highlighted(line: Seq<char>, check: Seq<char>, query: Seq<char>) -> Seq<char> {
    render(line, match_starts(query, check, 0), query.len() as int, 0)
}

/// Renders `line` with every occurrence of the query highlighted.
///
/// The occurrences are located in `line_to_check` with `query_to_check`, from
/// left to right and without overlap; `line` supplies the characters that are
/// shown. The two lines are meant to agree position by position, as a line and
/// its case-folded form do when folding maps character to character. A
/// position behind the end of `line` shows nothing. An empty query, or one
/// that does not occur, leaves the line as it is.
pub fn highlight_matches(line: &str, line_to_check: &str, query_to_check: &str) -> (out: String)
    ensures
        out@ == highlighted(line@, line_to_check@, query_to_check@),
{
    let check = chars_of(line_to_check);
    let query = chars_of(query_to_check);
    let width = query.len();
    let mut out = String::new();
    // What is left of `line` to copy: `line` from position `last` on.
    let mut rest: &str = line;
    let mut last: usize = 0;
    assert(clip(line@, 0, line@.len() as int) =~= line@);
    if 0 < width && width <= check.len() {
        let limit: usize = check.len() - width;
        let mut at: usize = 0;
        loop
            invariant_except_break
                last <= at <= limit,
                out@ + render(line@, match_starts(query@, check@, at as int), width as int, last as int)
                    == highlighted(line@, check@, query@),
            invariant
                0 < width == query@.len(),
                limit + width == check.len(),
                rest@ == clip(line@, last as int, line@.len() as int),
            ensures
                out@ + rest@ == highlighted(line@, check@, query@),
            decreases limit - at,
        {
            if starts_at(query.as_slice(), check.as_slice(), at) {
                let ghost before = out@;
                let ghost starts = match_starts(query@, check@, at as int);
                let ghost others = match_starts(query@, check@, at + width);
                let (gap, behind_gap) = split_chars(rest, at - last);
                let (shown, behind) = split_chars(behind_gap, width);
                proof {
                    lemma_markers();
                    assert(starts.drop_first() =~= others);
                    assert(gap@ =~= rest@.take(gap@.len() as int));
                    assert(behind_gap@ =~= rest@.skip(gap@.len() as int));
                    assert(shown@ =~= behind_gap@.take(shown@.len() as int));
                    assert(behind@ =~= behind_gap@.skip(shown@.len() as int));
                    assert(gap@ =~= clip(line@, last as int, at as int));
                    assert(shown@ =~= clip(line@, at as int, at + width));
                    assert(behind@ =~= clip(line@, at + width, line@.len() as int));
                }
                out.append(gap);
                out.append(RED);
                out.append(shown);
                out.append(RESET);
                assert(out@ + render(line@, others, width as int, at + width) =~= before + render(
                    line@,
                    starts,
                    width as int,
                    last as int,
                ));
                rest = behind;
                last = at + width;
                if last > limit {
                    assert(match_starts(query@, check@, last as int) =~= Seq::empty());
                    break;
                }
                at = last;
            } else {
                if at == limit {
                    assert(match_starts(query@, check@, at + 1) =~= Seq::empty());
                    break;
                }
                at += 1;
            }
        }
    }
    out.append(rest);
    out
}

/// A query that occurs nowhere in `text` is found nowhere by the scan.
proof fn lemma_no_occurrence_no_match(query: Seq<char>, text: Seq<char>, from: int)
    requires
        !occurs_in(query, text),
    ensures
        match_starts(query, text, from) == Seq::<int>::empty(),
    decreases text.len() - from,
{
    if !(query.len() == 0 || from < 0 || from + query.len() > text.len()) {
        assert(!occurs_at(query, text, from));
        lemma_no_occurrence_no_match(query, text, from + 1);
    }
}

/// Highlighting with a query that does not occur in the line that is checked
/// gives back the line as it is.
pub proof fn lemma_no_occurrence_unchanged(line: Seq<char>, check: Seq<char>, query: Seq<char>)
    requires
        !occurs_in(query, check),
    ensures
        highlighted(line, check, query) == line,
{
    lemma_no_occurrence_no_match(query, check, 0);
    assert(clip(line, 0, line.len() as int) =~= line);
}

/// Highlighting with the empty query gives back the line as it is: no marker
/// is put in.
pub proof fn lemma_empty_query_unchanged(line: Seq<char>, check: Seq<char>)
    ensures
        highlighted(line, check, Seq::empty()) == line,
{
    assert(clip(line, 0, line.len() as int) =~= line);
}

} // verus!
