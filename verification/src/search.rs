//! Selecting the lines of a text that contain a query.

use vstd::prelude::*;
use crate::fold::{compared, fold, folded};
use crate::lines::{lines, lines_of};
use crate::text::{chars_of, contains_chars, occurs_at, occurs_in};

verus! {

/// The lines of `contents` that contain `query`, in the order of the text.
pub open spec fn matching_lines(query: Seq<char>, contents: Seq<char>) -> Seq<Seq<char>> {
    lines_of(contents).filter(|line: Seq<char>| occurs_in(query, line))
}

/// The lines of `contents` whose folded form contains the folded form of
/// `query`, in the order of the text. The lines themselves are not folded.
pub open spec fn matching_lines_folded(query: Seq<char>, contents: Seq<char>) -> Seq<Seq<char>> {
    lines_of(contents).filter(|line: Seq<char>| occurs_in(folded(query), folded(line)))
}

/// Filtering one element more: the element is appended if it is kept.
proof fn lemma_filter_next<A>(s: Seq<A>, keep: spec_fn(A) -> bool, n: int)
    requires
        0 <= n < s.len(),
    ensures
        s.take(n + 1).filter(keep) == if keep(s[n]) {
            s.take(n).filter(keep).push(s[n])
        } else {
            s.take(n).filter(keep)
        },
{
    reveal(Seq::filter);
    assert(s.take(n + 1).drop_last() =~= s.take(n));
}

/// A filter that keeps everything changes nothing.
proof fn lemma_filter_all<A>(s: Seq<A>, keep: spec_fn(A) -> bool)
    requires
        forall|i: int| 0 <= i < s.len() ==> keep(#[trigger] s[i]),
    ensures
        s.filter(keep) == s,
    decreases s.len(),
{
    reveal(Seq::filter);
    if s.len() > 0 {
        lemma_filter_all(s.drop_last(), keep);
        assert(s.drop_last().push(s.last()) =~= s);
    }
}

/// What a filter keeps: the elements of the sequence that pass it.
proof fn lemma_filter_exact<A>(s: Seq<A>, keep: spec_fn(A) -> bool, x: A)
    ensures
        s.filter(keep).contains(x) <==> s.contains(x) && keep(x),
{
    broadcast use {Seq::lemma_filter_pred, Seq::lemma_filter_contains};

    if s.filter(keep).contains(x) {
        s.lemma_filter_contains_rev(keep, x);
    }
    if s.contains(x) && keep(x) {
        let i = choose|i: int| 0 <= i < s.len() && s[i] == x;
        assert(s.filter(keep).contains(s[i]));
    }
}

/// Selects among `all` the lines whose compared form contains `needle`.
fn select<'a>(all: Vec<&'a str>, needle: &[char], ignore_case: bool) -> (found: Vec<&'a str>)
    ensures
        found.deep_view() == all.deep_view().filter(
            |line: Seq<char>| occurs_in(needle@, compared(line, ignore_case)),
        ),
{
    let ghost keep = |line: Seq<char>| occurs_in(needle@, compared(line, ignore_case));
    let mut found: Vec<&'a str> = Vec::new();
    let mut n: usize = 0;
    while n < all.len()
        invariant
            n <= all.len(),
            keep == |line: Seq<char>| occurs_in(needle@, compared(line, ignore_case)),
            found.deep_view() == all.deep_view().take(n as int).filter(keep),
        decreases all.len() - n,
    {
        let line = all[n];
        let hay = if ignore_case {
            chars_of(fold(line).as_str())
        } else {
            chars_of(line)
        };
        let ghost before = found.deep_view();
        proof {
            lemma_filter_next(all.deep_view(), keep, n as int);
        }
        if contains_chars(hay.as_slice(), needle) {
            found.push(line);
            assert(found.deep_view() =~= before.push(line@));
        }
        n += 1;
    }
    assert(all.deep_view().take(n as int) =~= all.deep_view());
    found
}

/// Returns the lines of `contents` that contain `query`, in the order in which
/// they stand in `contents`. An empty query selects every line.
pub fn search<'a>(query: &str, contents: &'a str) -> (found: Vec<&'a str>)
    ensures
        found.deep_view() == matching_lines(query@, contents@),
{
    let needle = chars_of(query);
    assert((|line: Seq<char>| occurs_in(query@, compared(line, false))) =~= (|line: Seq<char>|
        occurs_in(query@, line)));
    select(lines(contents), needle.as_slice(), false)
}

/// Returns the lines of `contents` that contain `query` when case is ignored,
/// in the order in which they stand in `contents`. The query and each line are
/// folded for the comparison only: the lines returned are those of `contents`,
/// unchanged. An empty query selects every line.
pub fn search_case_insensitive<'a>(query: &str, contents: &'a str) -> (found: Vec<&'a str>)
    ensures
        found.deep_view() == matching_lines_folded(query@, contents@),
{
    let needle = chars_of(fold(query).as_str());
    assert((|line: Seq<char>| occurs_in(folded(query@), compared(line, true))) =~= (|
        line: Seq<char>,
    | occurs_in(folded(query@), folded(line))));
    select(lines(contents), needle.as_slice(), true)
}

/// The search that regards case is exact: a line is selected if and only if
/// it is a line of the text and contains the query. So every selected line
/// contains the query, and a line of the text that is not selected does not.
pub proof fn lemma_search_exact(query: Seq<char>, contents: Seq<char>)
    ensures
        forall|line: Seq<char>| #[trigger]
            matching_lines(query, contents).contains(line) <==> lines_of(contents).contains(line)
                && occurs_in(query, line),
{
    let keep = |line: Seq<char>| occurs_in(query, line);
    assert forall|line: Seq<char>| #[trigger]
        matching_lines(query, contents).contains(line) <==> lines_of(contents).contains(line)
            && occurs_in(query, line) by {
        lemma_filter_exact(lines_of(contents), keep, line);
    }
}

/// The search that ignores case is exact: a line is selected if and only if
/// it is a line of the text, as it stands there, and its folded form contains
/// the folded form of the query.
pub proof fn lemma_search_case_insensitive_exact(query: Seq<char>, contents: Seq<char>)
    ensures
        forall|line: Seq<char>| #[trigger]
            matching_lines_folded(query, contents).contains(line) <==> lines_of(contents).contains(
                line,
            ) && occurs_in(folded(query), folded(line)),
{
    let keep = |line: Seq<char>| occurs_in(folded(query), folded(line));
    assert forall|line: Seq<char>| #[trigger]
        matching_lines_folded(query, contents).contains(line) <==> lines_of(contents).contains(
            line,
        ) && occurs_in(folded(query), folded(line)) by {
        lemma_filter_exact(lines_of(contents), keep, line);
    }
}

/// The empty query selects every line of the text, whether case is regarded
/// or ignored.
pub proof fn lemma_empty_query_selects_all(contents: Seq<char>)
    ensures
        matching_lines(Seq::empty(), contents) == lines_of(contents),
        matching_lines_folded(Seq::empty(), contents) == lines_of(contents),
{
    let query = Seq::<char>::empty();
    let all = lines_of(contents);
    assert forall|line: Seq<char>| occurs_in(query, line) by {
        assert(line.subrange(0, 0) =~= query);
        assert(occurs_at(query, line, 0));
    }
    lemma_filter_all(all, |line: Seq<char>| occurs_in(query, line));
    lemma_filter_all(all, |line: Seq<char>| occurs_in(folded(query), folded(line)));
}

} // verus!
