use ryu_mission_control::text::{
    chars_of, is_white_space, push_decimal, push_numeral, same_text, text_precedes, trim, trim_end,
    trim_start,
};

#[test]
fn white_space_is_that_of_unicode() {
    for code in 0..=0x10ffffu32 {
        if let Some(c) = char::from_u32(code) {
            assert_eq!(is_white_space(c), c.is_whitespace(), "{code:x}");
        }
    }
}

#[test]
fn trimming_takes_white_space_at_the_ends_only() {
    for s in ["", " ", "a", " a b ", "\u{3000}x\u{85}", "\n\ta\u{200b}\r\n"] {
        assert_eq!(trim(s), s.trim());
        assert_eq!(trim_start(s), s.trim_start());
        assert_eq!(trim_end(s), s.trim_end());
    }
}

#[test]
fn numerals_are_those_of_the_standard_library() {
    for n in [0i64, 7, 10, 99, 100, 8010, -1, -10, i64::MAX, i64::MIN] {
        let mut out = String::from("n=");
        push_decimal(&mut out, n);
        assert_eq!(out, format!("n={n}"));
    }
    let mut out = String::new();
    push_numeral(&mut out, u64::MAX);
    assert_eq!(out, u64::MAX.to_string());
}

#[test]
fn texts_are_ordered_as_the_standard_library_orders_them() {
    let texts = ["", "a", "ab", "b", "B", "ä", "日", "\u{ffff}", "\u{10000}"];
    for a in texts {
        for b in texts {
            assert_eq!(text_precedes(a, b), a < b);
            assert_eq!(same_text(a, b), a == b);
        }
    }
}

#[test]
fn the_characters_of_a_text() {
    assert_eq!(chars_of("aé日"), vec!['a', 'é', '日']);
}
