use automata::text::{push_decimal, push_signed, same_text, white_space};

#[test]
fn white_space_agrees_with_the_standard_library() {
    for c in (0..=0x10ffff).filter_map(char::from_u32) {
        assert_eq!(white_space(c), c.is_whitespace(), "{:x}", c as u32);
    }
}

#[test]
fn numbers_are_written_in_decimal() {
    for n in [0, 1, 9, 10, 99, 100, 12_345, u64::MAX] {
        let mut out = "n = ".to_string();
        push_decimal(&mut out, n);
        assert_eq!(out, format!("n = {n}"));
    }
    for n in [0, 1, -1, 42, -42, i64::MAX, i64::MIN] {
        let mut out = String::new();
        push_signed(&mut out, n);
        assert_eq!(out, format!("{n:+}"));
    }
}

#[test]
fn texts_are_compared_by_their_characters() {
    assert!(same_text("", "") && same_text("space", "space") && same_text("→", "→"));
    assert!(!same_text("n", "N") && !same_text("n", "nn") && !same_text("", " "));
}
