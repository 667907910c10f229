//! Cutting a string slice at a character. A slice can only be cut at a byte
//! of its UTF-8 encoding, so this module relates positions that count
//! characters to positions that count bytes.

use vstd::prelude::*;
use vstd::std_specs::iter::IteratorSpec;
use vstd::string::*;
use vstd::utf8::*;

verus! {

/// The encoding of two texts joined is the two encodings joined.
proof fn lemma_encode_concat(a: Seq<char>, b: Seq<char>)
    ensures
        encode_utf8(a + b) == encode_utf8(a) + encode_utf8(b),
    decreases a.len(),
{
    if a.len() == 0 {
        assert(a + b =~= b);
        assert(encode_utf8(a) + encode_utf8(b) =~= encode_utf8(b));
    } else {
        lemma_encode_concat(a.drop_first(), b);
        assert((a + b).drop_first() =~= a.drop_first() + b);
        assert(encode_scalar(a[0] as u32) + (encode_utf8(a.drop_first()) + encode_utf8(b))
            =~= encode_scalar(a[0] as u32) + encode_utf8(a.drop_first()) + encode_utf8(b));
    }
}

/// An ASCII character is encoded as the one byte of the same value.
proof fn lemma_encode_ascii(c: char)
    requires
        c <= '\x7f',
    ensures
        encode_utf8(seq![c]) == seq![c as u8],
{
    let one = seq![c];
    assert(is_ascii_chars(one));
    is_ascii_chars_encode_utf8(one);
    assert(encode_utf8(one) =~= seq![c as u8]);
}

/// Only the empty text has an empty encoding.
pub(crate) proof fn lemma_encode_empty(text: Seq<char>)
    requires
        encode_utf8(text).len() == 0,
    ensures
        text.len() == 0,
{
    encode_utf8_decode_utf8(text);
}

/// An ASCII character of a text is found in the encoding, behind the encoding
/// of what stands before it, as the byte of the same value.
pub(crate) proof fn lemma_byte_of_ascii(text: Seq<char>, i: int)
    requires
        0 <= i < text.len(),
        text[i] <= '\x7f',
    ensures
        encode_utf8(text) == encode_utf8(text.take(i)) + seq![text[i] as u8] + encode_utf8(
            text.skip(i + 1),
        ),
{
    let before = text.take(i);
    let one = seq![text[i]];
    let behind = text.skip(i + 1);
    assert(text =~= before + one + behind);
    lemma_encode_concat(before + one, behind);
    lemma_encode_concat(before, one);
    lemma_encode_ascii(text[i]);
}

/// An ASCII byte of an encoding stands for the character of the same value,
/// and the text falls into what is encoded before the byte, that character,
/// and what is encoded behind the byte.
proof fn lemma_ascii_of_byte(text: Seq<char>, k: int)
    requires
        0 <= k < encode_utf8(text).len(),
        encode_utf8(text)[k] <= 0x7f,
    ensures
        is_char_boundary(encode_utf8(text), k),
        is_char_boundary(encode_utf8(text).skip(k), 1),
        valid_utf8(encode_utf8(text).subrange(0, k)),
        valid_utf8(encode_utf8(text).skip(k)),
        valid_utf8(encode_utf8(text).skip(k + 1)),
        text == decode_utf8(encode_utf8(text).subrange(0, k)) + seq![
            encode_utf8(text)[k] as char,
        ] + decode_utf8(encode_utf8(text).skip(k + 1)),
{
    let bytes = encode_utf8(text);
    let head = bytes.subrange(0, k);
    let tail = bytes.skip(k);
    let rest = bytes.skip(k + 1);
    encode_utf8_valid_utf8(text);
    encode_utf8_decode_utf8(text);
    is_char_boundary_iff_is_leading_byte(bytes, k);
    valid_utf8_split(bytes, k);
    decode_utf8_split(bytes, k);
    assert(bytes.subrange(k, bytes.len() as int) =~= tail);
    // `tail` begins with a one-byte scalar.
    assert(tail[0] == bytes[k]);
    assert(is_leading_byte_width_1(tail[0]));
    assert(length_of_first_scalar(tail) == 1);
    assert(pop_first_scalar(tail) =~= rest);
    assert(valid_utf8(rest));
    assert(is_char_boundary(tail, 1)) by {
        reveal_with_fuel(is_char_boundary, 2);
    }
    let b = tail[0];
    assert(b & 0x7f == b) by (bit_vector)
        requires
            b <= 0x7f,
    ;
    assert(decode_first_scalar(tail) == b as u32);
    assert(decode_utf8(tail) =~= seq![b as char] + decode_utf8(rest));
    assert(decode_utf8(bytes) =~= decode_utf8(head) + seq![b as char] + decode_utf8(rest));
}

/// Splits `text` before and behind its byte `k`, which is an ASCII byte and
/// so one whole character: the text is the first part, that character and the
/// second part.
pub(crate) fn split_around<'a>(text: &'a str, k: usize) -> (parts: (&'a str, &'a str))
    requires
        k < text.spec_bytes().len(),
        text.spec_bytes()[k as int] <= 0x7f,
    ensures
        text@ == parts.0@ + seq![text.spec_bytes()[k as int] as char] + parts.1@,
        parts.0.spec_bytes() == text.spec_bytes().subrange(0, k as int),
        parts.1.spec_bytes() == text.spec_bytes().skip(k + 1),
{
    proof {
        lemma_ascii_of_byte(text@, k as int);
    }
    let (head, tail) = text.split_at(k);
    assert(tail.spec_bytes() =~= text.spec_bytes().skip(k as int));
    let (_, rest) = tail.split_at(1);
    proof {
        assert(rest.spec_bytes() =~= text.spec_bytes().skip(k + 1));
        encode_utf8_decode_utf8(head@);
        encode_utf8_decode_utf8(rest@);
    }
    (head, rest)
}

/// The encoding of a text falls on a character boundary behind the encoding
/// of any of its beginnings.
proof fn lemma_boundary_behind(a: Seq<char>, b: Seq<char>)
    ensures
        is_char_boundary(encode_utf8(a + b), encode_utf8(a).len() as int),
    decreases a.len(),
{
    let all = a + b;
    let bytes = encode_utf8(all);
    encode_utf8_valid_utf8(all);
    if a.len() > 0 {
        lemma_encode_concat(a, b);
        encode_utf8_first_scalar(all);
        assert(pop_first_scalar(bytes) =~= encode_utf8(all.drop_first()));
        assert(all.drop_first() =~= a.drop_first() + b);
        assert(all[0] == a[0]);
        lemma_boundary_behind(a.drop_first(), b);
    }
}

/// The number of bytes in the encoding of `c`.
pub fn encoded_len(c: char) -> (width: usize)
    ensures
        width == encode_utf8(seq![c]).len(),
        1 <= width <= 4,
{
    proof {
        char_is_scalar(c);
        let one = seq![c];
        assert(one.len() == 1 && one[0] == c);
        assert(encode_utf8(one.drop_first()) =~= Seq::<u8>::empty());
        assert(encode_utf8(one) =~= encode_scalar(c as u32));
    }
    let v = c as u32;
    if v < 0x80 {
        1
    } else if v < 0x800 {
        2
    } else if v < 0x10000 {
        3
    } else {
        4
    }
}

/// Splits `text` behind its first `count` characters, or at its end if it
/// has fewer.
pub fn split_chars<'a>(text: &'a str, count: usize) -> (parts: (&'a str, &'a str))
    ensures
        parts.0@ + parts.1@ == text@,
        parts.0@.len() == if count <= text@.len() {
            count as nat
        } else {
            text@.len()
        },
{
    let total = text.as_bytes().len();
    let mut taken: usize = 0;
    let mut bytes: usize = 0;
    proof {
        assert(text@.take(0) =~= Seq::<char>::empty());
        assert(text@.skip(0) =~= text@);
    }
    let mut it = text.chars();
    while taken < count
        invariant
            it.remaining() == text@.skip(taken as int),
            total == encode_utf8(text@).len(),
            taken <= count,
            taken <= text@.len(),
            bytes == encode_utf8(text@.take(taken as int)).len(),
        ensures
            taken <= text@.len(),
            taken == count || taken == text@.len(),
            bytes == encode_utf8(text@.take(taken as int)).len(),
        decreases count - taken,
    {
        match it.next() {
            Some(c) => {
                let width = encoded_len(c);
                proof {
                    let before = text@.take(taken as int);
                    assert(text@.take(taken + 1) =~= before + seq![c]);
                    lemma_encode_concat(before, seq![c]);
                    assert(text@ =~= text@.take(taken + 1) + text@.skip(taken + 1));
                    lemma_encode_concat(text@.take(taken + 1), text@.skip(taken + 1));
                    assert(text@.skip(taken as int).drop_first() =~= text@.skip(taken + 1));
                }
                bytes += width;
                taken += 1;
            },
            None => {
                break;
            },
        }
    }
    proof {
        let head = text@.take(taken as int);
        let tail = text@.skip(taken as int);
        assert(text@ =~= head + tail);
        lemma_boundary_behind(head, tail);
        lemma_encode_concat(head, tail);
        encode_utf8_valid_utf8(text@);
        encode_utf8_decode_utf8(head);
        encode_utf8_decode_utf8(tail);
        assert(encode_utf8(text@).subrange(0, bytes as int) =~= encode_utf8(head));
        assert(encode_utf8(text@).subrange(bytes as int, total as int) =~= encode_utf8(tail));
    }
    let (head, tail) = text.split_at(bytes);
    proof {
        encode_utf8_decode_utf8(head@);
        encode_utf8_decode_utf8(tail@);
    }
    (head, tail)
}

} // verus!
