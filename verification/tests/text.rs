use libakaza::text::{byte_len_of, char_width, str_byte_len, substring, to_chars};

#[test]
fn characters_take_one_to_four_bytes() {
    assert_eq!(char_width('a'), 1);
    assert_eq!(char_width('\u{7f}'), 1);
    assert_eq!(char_width('\u{80}'), 2);
    assert_eq!(char_width('é'), 2);
    assert_eq!(char_width('\u{7ff}'), 2);
    assert_eq!(char_width('\u{800}'), 3);
    assert_eq!(char_width('わ'), 3);
    assert_eq!(char_width('\u{ffff}'), 3);
    assert_eq!(char_width('\u{10000}'), 4);
    assert_eq!(char_width('😀'), 4);
    for c in ['a', 'é', 'わ', '😀'] {
        assert_eq!(char_width(c), c.len_utf8());
    }
}

#[test]
fn byte_lengths_match_the_encoding() {
    let text = "aéわ😀b";
    let chars = to_chars(text);
    assert_eq!(chars, text.chars().collect::<Vec<char>>());
    assert_eq!(str_byte_len(text), 11);
    assert_eq!(byte_len_of(&chars, 0, 5), Some(11));
    assert_eq!(byte_len_of(&chars, 1, 3), Some(5));
    assert_eq!(byte_len_of(&chars, 2, 2), Some(0));
    assert_eq!(substring(&chars, 1, 4), "éわ😀");
    assert_eq!(substring(&chars, 0, 0), "");
}
