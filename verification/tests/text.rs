use sched::measurement::is_background_class;
use sched::scheduler::deadline_after;
use sched::text::{
    append, chars_of, is_whitespace, join_with, lists, push_decimal, read_digit, read_magnitude,
    read_unsigned, split_by, split_fields, string_of, Delimiter,
};

fn chars(s: &str) -> Vec<char> {
    s.chars().collect()
}

fn strings(v: Vec<Vec<char>>) -> Vec<String> {
    v.iter().map(|w| w.iter().collect()).collect()
}

#[test]
fn white_space_is_the_unicode_property() {
    let spaces = [
        '\t', '\n', '\u{b}', '\u{c}', '\r', ' ', '\u{85}', '\u{a0}', '\u{1680}', '\u{2000}',
        '\u{2005}', '\u{200a}', '\u{2028}', '\u{2029}', '\u{202f}', '\u{205f}', '\u{3000}',
    ];
    for c in spaces {
        assert!(is_whitespace(c), "{:?}", c);
    }
    for c in ['a', '0', ',', '#', '\u{8}', '\u{e}', '\u{200b}', '\u{feff}', '\u{180e}', '\u{1f}'] {
        assert!(!is_whitespace(c), "{:?}", c);
    }
    for code in 0..0x3100u32 {
        if let Some(c) = char::from_u32(code) {
            assert_eq!(is_whitespace(c), c.is_whitespace(), "{:?}", c);
        }
    }
}

#[test]
fn a_delimiter_accepts_its_characters() {
    assert!(Delimiter::Blank.test(' '));
    assert!(Delimiter::Blank.test('\n'));
    assert!(!Delimiter::Blank.test(','));
    assert!(Delimiter::Exactly(',').test(','));
    assert!(!Delimiter::Exactly(',').test(' '));
    assert!(!Delimiter::Exactly(',').test(';'));
}

#[test]
fn splitting_keeps_empty_pieces() {
    let split = |s: &str| strings(split_by(&chars(s), Delimiter::Exactly(',')));
    assert_eq!(split(""), vec![""]);
    assert_eq!(split("a"), vec!["a"]);
    assert_eq!(split("a,b"), vec!["a", "b"]);
    assert_eq!(split(",a,,b,"), vec!["", "a", "", "b", ""]);
    assert_eq!(split(","), vec!["", ""]);
    assert_eq!(split("a b,c"), vec!["a b", "c"]);
    assert_eq!(strings(split_by(&chars("a\nb\n"), Delimiter::Exactly('\n'))), vec!["a", "b", ""]);
    assert_eq!(strings(split_by(&chars("a \tb"), Delimiter::Blank)), vec!["a", "", "b"]);
}

#[test]
fn fields_are_the_runs_between_white_space() {
    let fields = |s: &str| strings(split_fields(&chars(s)));
    assert_eq!(fields(""), Vec::<String>::new());
    assert_eq!(fields(" \t\r\n"), Vec::<String>::new());
    assert_eq!(fields("one"), vec!["one"]);
    assert_eq!(fields("  one  two\tthree\u{3000}four \n"), vec!["one", "two", "three", "four"]);
    assert_eq!(fields("a,b c,,d"), vec!["a,b", "c,,d"]);
}

#[test]
fn digits_have_their_values() {
    for (i, c) in "0123456789".chars().enumerate() {
        assert_eq!(read_digit(c), Some(i as u32));
    }
    for c in ['/', ':', 'a', ' ', '+', '-', '\u{663}', '\u{ff11}'] {
        assert_eq!(read_digit(c), None);
    }
}

#[test]
fn magnitudes_are_runs_of_digits_within_32_bits() {
    assert_eq!(read_magnitude(&chars("0"), 0), Some(0));
    assert_eq!(read_magnitude(&chars("007"), 0), Some(7));
    assert_eq!(read_magnitude(&chars("x42"), 1), Some(42));
    assert_eq!(read_magnitude(&chars("4294967295"), 0), Some(4294967295));
    assert_eq!(read_magnitude(&chars("4294967296"), 0), None);
    assert_eq!(read_magnitude(&chars("00000000000000000001"), 0), Some(1));
    assert_eq!(read_magnitude(&chars("18446744073709551616"), 0), None);
    assert_eq!(read_magnitude(&chars(""), 0), None);
    assert_eq!(read_magnitude(&chars("12"), 2), None);
    assert_eq!(read_magnitude(&chars("+1"), 0), None);
    assert_eq!(read_magnitude(&chars("1a"), 0), None);
    assert_eq!(read_magnitude(&chars("99999999999a"), 0), None);
}

#[test]
fn unsigned_numbers_may_have_a_plus() {
    assert_eq!(read_unsigned(&chars("12")), Some(12));
    assert_eq!(read_unsigned(&chars("+12")), Some(12));
    assert_eq!(read_unsigned(&chars("+0")), Some(0));
    for s in ["", "+", "-1", "++1", "1+", " 1", "1 ", "1_000", "0x1", "1e3", "٣"] {
        assert_eq!(read_unsigned(&chars(s)), None, "{:?}", s);
    }
    for n in [0u32, 1, 9, 10, 99, 100, 65535, 4294967294, 4294967295] {
        assert_eq!(read_unsigned(&chars(&n.to_string())), Some(n));
    }
}

#[test]
fn numbers_are_written_in_decimal() {
    for n in [0u32, 1, 9, 10, 11, 99, 100, 101, 125000, 1000000, 4294967295] {
        let mut out = chars("n=");
        push_decimal(&mut out, n);
        assert_eq!(out.iter().collect::<String>(), format!("n={}", n));
        assert_eq!(read_magnitude(&out, 2), Some(n));
    }
}

#[test]
fn joining_puts_the_separator_between_parts() {
    let join = |parts: &[&str]| -> String {
        join_with(&parts.iter().map(|p| chars(p)).collect(), ',').iter().collect()
    };
    assert_eq!(join(&[]), "");
    assert_eq!(join(&["a"]), "a");
    assert_eq!(join(&[""]), "");
    assert_eq!(join(&["a", "b", "c"]), "a,b,c");
    assert_eq!(join(&["", "", ""]), ",,");
    assert_eq!(join(&["ab", "", "c"]), "ab,,c");
    for s in ["", "a", "a,b", ",a,,b,", ","] {
        assert_eq!(join_with(&split_by(&chars(s), Delimiter::Exactly(',')), ','), chars(s));
    }
}

#[test]
fn appending_adds_at_the_end() {
    let mut out = chars("ab");
    append(&mut out, &chars("cd"));
    append(&mut out, &chars(""));
    append(&mut out, &chars("e"));
    assert_eq!(out, chars("abcde"));
}

#[test]
fn strings_and_characters_convert_both_ways() {
    for s in ["", "a", "fpA", "bg", "héllo wörld", "\u{1f600}\u{3000}x", "tab\there"] {
        assert_eq!(chars_of(s), chars(s));
        assert_eq!(string_of(&chars(s)), s);
    }
}

#[test]
fn a_list_has_what_it_lists() {
    assert!(lists(&vec![3, 1, 2], 1));
    assert!(lists(&vec![3, 1, 2], 3));
    assert!(lists(&vec![3, 1, 2], 2));
    assert!(!lists(&vec![3, 1, 2], 0));
    assert!(!lists(&vec![], 0));
}

#[test]
fn only_bg_is_the_background_class() {
    assert!(is_background_class(&chars("bg")));
    for s in ["", "b", "g", "gb", "bgb", "BG", "Bg", " bg", "bg "] {
        assert!(!is_background_class(&chars(s)), "{:?}", s);
    }
}

#[test]
fn the_deadline_is_now_plus_half_again_the_duration() {
    assert_eq!(deadline_after(0, 0), 0);
    assert_eq!(deadline_after(100, 0), 100);
    assert_eq!(deadline_after(100, 1), 102);
    assert_eq!(deadline_after(100, 2), 103);
    assert_eq!(deadline_after(100, 3), 105);
    assert_eq!(deadline_after(1000, 30), 1045);
    assert_eq!(deadline_after(0, u32::MAX), 6442450943);
    assert_eq!(deadline_after(u64::MAX - 6442450943, u32::MAX), u64::MAX);
    assert_eq!(deadline_after(u64::MAX - 6442450942, u32::MAX), u64::MAX);
    assert_eq!(deadline_after(u64::MAX, 0), u64::MAX);
    assert_eq!(deadline_after(u64::MAX, 1), u64::MAX);
    assert_eq!(deadline_after(u64::MAX - 2, 1), u64::MAX);
    assert_eq!(deadline_after(u64::MAX - 3, 1), u64::MAX - 1);
}
