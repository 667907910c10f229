use minigrep::encoding::{encoded_len, split_chars};

#[test]
fn encoded_len_counts_bytes() {
    assert_eq!(1, encoded_len('\0'));
    assert_eq!(1, encoded_len('a'));
    assert_eq!(1, encoded_len('\x7f'));
    assert_eq!(2, encoded_len('\u{80}'));
    assert_eq!(2, encoded_len('ß'));
    assert_eq!(2, encoded_len('\u{7ff}'));
    assert_eq!(3, encoded_len('\u{800}'));
    assert_eq!(3, encoded_len('→'));
    assert_eq!(3, encoded_len('\u{ffff}'));
    assert_eq!(4, encoded_len('\u{10000}'));
    assert_eq!(4, encoded_len('𝄞'));
    assert_eq!(4, encoded_len('\u{10ffff}'));
    for c in ['a', 'ß', '→', '𝄞', '\u{d7ff}', '\u{e000}'] {
        assert_eq!(c.len_utf8(), encoded_len(c));
    }
}

#[test]
fn split_chars_counts_characters() {
    assert_eq!(("", "aß→𝄞z"), split_chars("aß→𝄞z", 0));
    assert_eq!(("a", "ß→𝄞z"), split_chars("aß→𝄞z", 1));
    assert_eq!(("aß", "→𝄞z"), split_chars("aß→𝄞z", 2));
    assert_eq!(("aß→", "𝄞z"), split_chars("aß→𝄞z", 3));
    assert_eq!(("aß→𝄞", "z"), split_chars("aß→𝄞z", 4));
    assert_eq!(("aß→𝄞z", ""), split_chars("aß→𝄞z", 5));
}

#[test]
fn split_chars_stops_at_the_end() {
    assert_eq!(("aß", ""), split_chars("aß", 3));
    assert_eq!(("aß", ""), split_chars("aß", usize::MAX));
    assert_eq!(("", ""), split_chars("", 0));
    assert_eq!(("", ""), split_chars("", 7));
}
