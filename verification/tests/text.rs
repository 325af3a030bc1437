use nexus_viewer::text::{
    after_prefix, before_suffix, begins_with, chars_of, cut, drop_suffixes, has_text, join,
    parse_number, same_text, to_decimal, to_signed_decimal, trim, truncate, white_space,
};

#[test]
fn white_space_is_that_of_unicode() {
    for u in 0..=0x10ffffu32 {
        if let Some(c) = char::from_u32(u) {
            assert_eq!(white_space(c), c.is_whitespace(), "{u:x}");
        }
    }
}

#[test]
fn trimming_takes_the_ends_off() {
    for s in ["", "  ", "a", " a b ", "\t\u{2003}x\u{a0}", "\u{200b}x"] {
        assert_eq!(trim(s), s.trim());
    }
}

#[test]
fn decimals_are_written_and_read() {
    for n in [0u64, 9, 10, 105, 26871, u64::MAX] {
        let s = to_decimal(n);
        assert_eq!(s, n.to_string());
        let v = chars_of(&s);
        assert_eq!(parse_number(&v, 0, v.len()), Some(n));
    }
    for n in [0i64, -1, 42, i64::MAX, i64::MIN] {
        assert_eq!(to_signed_decimal(n), n.to_string());
    }
}

#[test]
fn numbers_are_read_as_the_standard_library_reads_them() {
    for s in ["", "+", "-1", "+7", "007", "1 ", "1_0", "٣", "18446744073709551615", "18446744073709551616"] {
        let v = chars_of(s);
        assert_eq!(parse_number(&v, 0, v.len()), s.parse::<u64>().ok(), "{s}");
    }
}

#[test]
fn parts_of_texts_are_found() {
    assert!(has_text("BL10:CHOP:Speed", "CHOP"));
    assert!(has_text("abc", ""));
    assert!(has_text("aab", "ab"));
    assert!(!has_text("abc", "abcd"));
    assert!(!has_text("abc", "B"));
    assert!(begins_with("IPTS-1", "IPTS-"));
    assert!(!begins_with("IPTS", "IPTS-"));
    assert_eq!(after_prefix("~/x/y", "~/"), Some("x/y".to_string()));
    assert_eq!(after_prefix("/x", "~/"), None);
    assert_eq!(before_suffix("a.nxs.h5", ".h5"), Some("a.nxs".to_string()));
    assert_eq!(before_suffix("h5", ".h5"), None);
    assert!(same_text("é", "é"));
    assert!(!same_text("e", "é"));
    assert_eq!(cut(&chars_of("größe"), 1, 4), "röß");
}

#[test]
fn repeated_suffixes_are_dropped() {
    for s in ["a.h5", "a.h5.h5", ".h5", "a", "", "h5"] {
        assert_eq!(drop_suffixes(s, ".h5"), s.trim_end_matches(".h5"));
    }
}

#[test]
fn texts_are_joined_and_cut() {
    assert_eq!(join(&vec![], ", "), "");
    assert_eq!(join(&vec!["a".to_string()], ", "), "a");
    assert_eq!(join(&vec!["a".to_string(), "".to_string(), "c".to_string()], " / "), "a /  / c");
    assert_eq!(truncate("abc", 3), "abc");
    assert_eq!(truncate("abcd", 3), "abc…");
    assert_eq!(truncate("αβγδ", 2), "αβ…");
    assert_eq!(truncate("x", 0), "…");
    assert_eq!(truncate("", 0), "");
}
