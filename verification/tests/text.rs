use elf_reader::text::{
    after_last, decimal_i64, cut_at_sep, decimal_u64, dot_path, ends_with, has_char, hex8, replace_char, split_at_char, split_sep, starts_with,
    char_is_ascii, char_is_digit, chars_of, strip_prefix, text_stands_at,
};

#[test]
fn prefixes_and_suffixes() {
    assert!(starts_with("evt__x", "evt__"));
    assert!(!starts_with("evt", "evt__"));
    assert!(ends_with("a.b", ".b"));
    assert!(!ends_with("b", ".b"));
    assert_eq!(strip_prefix("äöx", "äö"), Some("x"));
    assert_eq!(strip_prefix("x", "y"), None);
}

#[test]
fn texts_in_texts() {
    for (s, t) in [("aab", "ab"), ("aab", "aab"), ("aab", "ba"), ("ab", "abc"), ("", ""), ("a", ""), ("", "a"), ("xäöy", "äö")] {
        let (v, w) = (chars_of(s), chars_of(t));
        for i in 0..6 {
            assert_eq!(text_stands_at(&v, &w, i), i <= v.len() && v[i..].starts_with(&w));
        }
    }
    for c in ['/', '0', '9', ':', 'a', '\u{7f}', '\u{80}', 'ä'] {
        assert_eq!(char_is_digit(c), c.is_ascii_digit());
        assert_eq!(char_is_ascii(c), c.is_ascii());
    }
}

#[test]
fn separators_cut_names() {
    assert_eq!(split_sep("unit__a__b"), Some(("unit", "a__b")));
    assert_eq!(split_sep("unit_a"), None);
    assert_eq!(split_sep("___"), Some(("", "_")));
    assert_eq!(cut_at_sep("a__b__c"), ("a", "b__c"));
    assert_eq!(cut_at_sep("a__"), ("a", ""));
    assert_eq!(cut_at_sep("a"), ("a", ""));
    assert_eq!(cut_at_sep("__a"), ("", "a"));
    for (text, dotted) in [("a__b_c", "a.b_c"), ("___a", "._a"), ("____", ".."), ("_", "_"), ("", "")] {
        assert_eq!(dot_path(text), text.replace("__", "."));
        assert_eq!(dot_path(text), dotted);
    }
}

#[test]
fn characters_are_found() {
    assert_eq!(split_at_char("a.b.c", '.'), Some(("a", "b.c")));
    assert_eq!(split_at_char("abc", '.'), None);
    assert_eq!(after_last("a/b/c", '/'), Some("c"));
    assert_eq!(after_last("abc", '/'), None);
    assert_eq!(replace_char("a.b.", '.', '_'), "a_b_");
    assert!(has_char("a b", ' '));
    assert!(!has_char("ab", ' '));
}

#[test]
fn numbers_are_written_as_the_standard_library_does() {
    for n in [0u64, 9, 10, 99, 1234567890, u64::MAX] {
        assert_eq!(decimal_u64(n), format!("{n}"));
        assert_eq!(hex8(n, true), format!("{n:08X}"));
        assert_eq!(hex8(n, false), format!("{n:08x}"));
    }
    for n in [0i64, -1, 10, i64::MIN, i64::MAX] {
        assert_eq!(decimal_i64(n), format!("{n}"));
    }
}
