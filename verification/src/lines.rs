//! Splitting a text into its lines.

use vstd::prelude::*;
use vstd::string::*;
use vstd::utf8::*;
use crate::encoding::{lemma_byte_of_ascii, lemma_encode_empty, split_around};

verus! {

/// The number of characters before the first line feed of `text`, or the
/// length of `text` if it holds none.
pub open spec fn line_end(text: Seq<char>) -> int
    decreases text.len(),
{
    if text.len() == 0 || text[0] == '\n' {
        0
    } else {
        1 + line_end(text.drop_first())
    }
}

/// `line` without the carriage return at its end, if it has one.
pub open spec fn without_return(line: Seq<char>) -> Seq<char> {
    if line.len() > 0 && line.last() == '\r' {
        line.drop_last()
    } else {
        line
    }
}

/// The first line of `text`: what stands before the first line feed, without
/// a carriage return directly before it; the whole text if it holds no line
/// feed.
pub open spec fn first_line(text: Seq<char>) -> Seq<char> {
    let end = line_end(text);
    if 0 <= end < text.len() {
        without_return(text.take(end))
    } else {
        text
    }
}

/// What stands behind the first line feed of `text`; nothing if it holds
/// none.
pub open spec fn after_first_line(text: Seq<char>) -> Seq<char> {
    let end = line_end(text);
    if 0 <= end < text.len() {
        text.skip(end + 1)
    } else {
        Seq::empty()
    }
}

/// The lines of `text`. A line ends at a line feed; the line feed, and a
/// carriage return directly before it, belong to no line. What follows the
/// last line feed is a line of its own unless it is empty, so a text gives the
/// same lines with and without a line ending at its very end.
pub open spec fn lines_of(text: Seq<char>) -> Seq<Seq<char>>
    decreases text.len(),
{
    if text.len() == 0 {
        Seq::empty()
    } else {
        seq![first_line(text)] + lines_of(after_first_line(text))
    }
}

/// Where the first line of `text` ends: `end` is that place if no line feed
/// stands before it and either one stands at it or the text ends there.
proof fn lemma_line_end(text: Seq<char>, end: int)
    requires
        0 <= end <= text.len(),
        forall|i: int| 0 <= i < end ==> text[i] != '\n',
        end < text.len() ==> text[end] == '\n',
    ensures
        line_end(text) == end,
    decreases end,
{
    if end > 0 {
        lemma_line_end(text.drop_first(), end - 1);
    }
}

/// A text whose encoding holds no byte of the value of `c`, an ASCII
/// character, does not hold `c`.
proof fn lemma_absent_byte(text: Seq<char>, c: char)
    requires
        c <= '\x7f',
        forall|k: int| 0 <= k < encode_utf8(text).len() ==> encode_utf8(text)[k] != c as u8,
    ensures
        forall|i: int| 0 <= i < text.len() ==> text[i] != c,
{
    assert forall|i: int| 0 <= i < text.len() implies text[i] != c by {
        if text[i] == c {
            lemma_byte_of_ascii(text, i);
            let k = encode_utf8(text.take(i)).len() as int;
            assert(encode_utf8(text)[k] == c as u8);
        }
    }
}

/// A text whose encoding does not end with the byte of the value of `c`, an
/// ASCII character, does not end with `c`.
proof fn lemma_absent_last_byte(text: Seq<char>, c: char)
    requires
        c <= '\x7f',
        text.len() > 0,
        encode_utf8(text).len() > 0 ==> encode_utf8(text).last() != c as u8,
    ensures
        text.last() != c,
{
    if text.last() == c {
        let i = text.len() - 1;
        lemma_byte_of_ascii(text, i);
        assert(text.skip(i + 1) =~= Seq::<char>::empty());
        assert(encode_utf8(text.skip(i + 1)) =~= Seq::<u8>::empty());
        assert(encode_utf8(text).last() == c as u8);
    }
}

/// Splits off the first line of `text`: returns that line and what stands
/// behind its line feed.
fn split_line<'a>(text: &'a str) -> (parts: (&'a str, &'a str))
    ensures
        parts.0@ == first_line(text@),
        parts.1@ == after_first_line(text@),
{
    let bytes = text.as_bytes();
    let n = bytes.len();
    let mut k: usize = 0;
    while k < n && bytes[k] != 0x0a
        invariant
            n == bytes@.len(),
            k <= n,
            forall|j: int| 0 <= j < k ==> bytes@[j] != 0x0a,
        decreases n - k,
    {
        k += 1;
    }
    if k == n {
        proof {
            reveal_strlit("");
            lemma_absent_byte(text@, '\n');
            lemma_line_end(text@, text@.len() as int);
            assert(""@ =~= Seq::<char>::empty());
        }
        return (text, "");
    }
    let (head, rest) = split_around(text, k);
    proof {
        lemma_absent_byte(head@, '\n');
        lemma_line_end(text@, head@.len() as int);
        assert(text@.take(head@.len() as int) =~= head@);
        assert(text@.skip(head@.len() as int + 1) =~= rest@);
    }
    if k > 0 && bytes[k - 1] == 0x0d {
        let (line, nothing) = split_around(head, k - 1);
        proof {
            assert(nothing.spec_bytes() =~= Seq::<u8>::empty());
            lemma_encode_empty(nothing@);
            assert(head@ =~= line@.push('\r'));
            assert(head@.drop_last() =~= line@);
        }
        (line, rest)
    } else {
        proof {
            if head@.len() > 0 {
                lemma_absent_last_byte(head@, '\r');
            }
        }
        (head, rest)
    }
}

/// The lines of `contents`, each a slice of it.
pub fn lines<'a>(contents: &'a str) -> (out: Vec<&'a str>)
    ensures
        out.deep_view() == lines_of(contents@),
{
    let mut out: Vec<&'a str> = Vec::new();
    let mut rest: &'a str = contents;
    assert(out.deep_view() + lines_of(rest@) =~= lines_of(contents@));
    while !rest.is_empty()
        invariant
            out.deep_view() + lines_of(rest@) == lines_of(contents@),
        decreases rest@.len(),
    {
        let ghost before = out.deep_view();
        let (line, next) = split_line(rest);
        out.push(line);
        proof {
            assert(out.deep_view() =~= before.push(line@));
            assert(before.push(line@) + lines_of(next@) =~= before + lines_of(rest@));
        }
        rest = next;
    }
    assert(out.deep_view() + lines_of(rest@) =~= out.deep_view());
    out
}

} // verus!
