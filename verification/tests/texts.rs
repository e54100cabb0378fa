use easegress_sdk::text::{
    chars_of, code_of, digit_text, find, matches_at, parse_i32, push_decimal, same_text,
    slice_text, space, split_text, trim_text, word_is,
};

#[test]
fn split_gives_the_pieces_between_the_pattern() {
    assert_eq!(split_text("a;b;;c", ";"), vec!["a", "b", "", "c"]);
    assert_eq!(split_text("", ";"), vec![""]);
    assert_eq!(split_text(";", ";"), vec!["", ""]);
    assert_eq!(split_text("abc", ";"), vec!["abc"]);
    assert_eq!(split_text("a\r\nb\rc\r\n", "\r\n"), vec!["a", "b\rc", ""]);
    assert_eq!(split_text("aaa", "aa"), vec!["", "a"]);
    assert_eq!(split_text("\u{e9};\u{2713}", ";"), vec!["\u{e9}", "\u{2713}"]);
}

#[test]
fn find_gives_the_first_place_or_the_length() {
    let s = chars_of("hello world");
    assert_eq!(find(&s, &chars_of("o"), 0), 4);
    assert_eq!(find(&s, &chars_of("o"), 5), 7);
    assert_eq!(find(&s, &chars_of("o"), 8), 11);
    assert_eq!(find(&s, &chars_of("world"), 0), 6);
    assert_eq!(find(&s, &chars_of("worlds"), 0), 11);
    assert!(matches_at(&s, &chars_of("llo"), 2));
    assert!(!matches_at(&s, &chars_of("llo"), 3));
}

#[test]
fn slices_count_characters() {
    assert_eq!(slice_text("h\u{e9}llo", 1, 3), "\u{e9}l");
    assert_eq!(slice_text("abc", 3, 3), "");
    assert_eq!(chars_of("a\u{e9}"), vec!['a', '\u{e9}']);
    assert_eq!(code_of('A'), 65);
}

#[test]
fn trim_drops_white_space_at_both_ends() {
    assert_eq!(trim_text("  a b \t\r\n"), "a b");
    assert_eq!(trim_text("\u{a0}\u{3000}x\u{2028}"), "x");
    assert_eq!(trim_text("   "), "");
    assert_eq!(trim_text(""), "");
    assert_eq!(trim_text("x"), "x");
    assert!(space(' '));
    assert!(space('\u{85}'));
    assert!(!space('\u{200b}'));
    assert!(!space('a'));
}

#[test]
fn words_ignore_ascii_case_only() {
    assert!(word_is("Max-Age", "max-age"));
    assert!(word_is("PATH", "path"));
    assert!(word_is("path", "path"));
    assert!(!word_is("paths", "path"));
    assert!(!word_is("pat", "path"));
    assert!(!word_is("MAX\rAGE", "max-age"));
    assert!(!word_is("\u{212a}", "k"));
    assert!(same_text("abc", "abc"));
    assert!(!same_text("abc", "abd"));
    assert!(!same_text("abc", "ab"));
}

#[test]
fn numbers_are_read_in_base_ten() {
    assert_eq!(parse_i32("0"), Some(0));
    assert_eq!(parse_i32("42"), Some(42));
    assert_eq!(parse_i32("+42"), Some(42));
    assert_eq!(parse_i32("-42"), Some(-42));
    assert_eq!(parse_i32("-0"), Some(0));
    assert_eq!(parse_i32("000000000000000000012"), Some(12));
    assert_eq!(parse_i32("2147483647"), Some(i32::MAX));
    assert_eq!(parse_i32("-2147483648"), Some(i32::MIN));
    assert_eq!(parse_i32("2147483648"), None);
    assert_eq!(parse_i32("-2147483649"), None);
    assert_eq!(parse_i32("99999999999999999999999"), None);
    assert_eq!(parse_i32(""), None);
    assert_eq!(parse_i32("+"), None);
    assert_eq!(parse_i32("-"), None);
    assert_eq!(parse_i32("12a"), None);
    assert_eq!(parse_i32(" 12"), None);
    assert_eq!(parse_i32("1 2"), None);
    assert_eq!(parse_i32("--1"), None);
    assert_eq!(parse_i32("\u{661}"), None);
}

#[test]
fn numbers_are_written_in_base_ten() {
    let mut out = "n=".to_string();
    push_decimal(&mut out, 0);
    assert_eq!(out, "n=0");
    push_decimal(&mut out, 1905);
    assert_eq!(out, "n=01905");
    let mut big = String::new();
    push_decimal(&mut big, u32::MAX);
    assert_eq!(big, "4294967295");
    assert_eq!(digit_text(7), "7");
}
