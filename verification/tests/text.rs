use nix2flatpak::bytes::{bytes_contain, bytes_equal, bytes_start_with, copy_bytes, find_bytes};
use nix2flatpak::order::{sort_texts, text_positions, unique};
use nix2flatpak::text::{
    char_bytes, glue, glue3, contains, copy_strings, ends_with, is_white_space, join_text, lines,
    list_has, number_text, parse_number, replace_text, same_text, split_text, starts_with, trim,
};

fn strings(list: &[&str]) -> Vec<String> {
    list.iter().map(|s| s.to_string()).collect()
}

const SAMPLES: [&str; 14] = [
    "",
    " ",
    "a",
    "abc",
    "a:b::c:",
    ":",
    "::",
    "aaaa",
    "line one\nline two\r\nthree",
    "ends\n",
    "\r\n\r\n",
    "\u{a0}näme\u{2003}",
    "größe/ß.ö",
    "x.y.z",
];

#[test]
fn white_space_is_that_of_unicode() {
    for c in (0..=0x10ffffu32).filter_map(char::from_u32) {
        assert_eq!(is_white_space(c), c.is_whitespace(), "{:?}", c);
    }
}

#[test]
fn trimming_is_that_of_std() {
    for s in SAMPLES {
        assert_eq!(trim(s), s.trim());
    }
    assert_eq!(trim("\t a b \u{3000}\n"), "a b");
}

#[test]
fn lines_are_those_of_std() {
    for s in SAMPLES {
        assert_eq!(lines(s), s.lines().collect::<Vec<_>>());
    }
    assert_eq!(lines("a\rb\n\nc\r"), strings(&["a\rb", "", "c\r"]));
}

#[test]
fn splitting_is_that_of_std() {
    for s in SAMPLES {
        for sep in [":", "a", "aa", "/", "\n", "ö"] {
            assert_eq!(split_text(s, sep), s.split(sep).collect::<Vec<_>>());
        }
    }
}

#[test]
fn joining_what_was_split_gives_it_back() {
    for s in SAMPLES {
        for sep in [":", "aa", "\n"] {
            assert_eq!(join_text(&split_text(s, sep), sep), s);
        }
    }
    assert_eq!(join_text(&strings(&[]), ", "), "");
    assert_eq!(join_text(&strings(&["a", "", "b"]), ", "), "a, , b");
}

#[test]
fn splitting_what_was_joined_gives_it_back() {
    let pieces = strings(&["usr", "", "lib64"]);
    assert_eq!(split_text(&join_text(&pieces, "/"), "/"), pieces);
}

#[test]
fn replacing_is_that_of_std() {
    for s in SAMPLES {
        for (from, to) in [("a", "bb"), ("aa", "a"), (":", ""), ("", "-"), ("ß", "ss")] {
            assert_eq!(replace_text(s, from, to), s.replace(from, to));
        }
    }
}

#[test]
fn searching_is_that_of_std() {
    for s in SAMPLES {
        for pat in ["", "a", "aa", ":", "ö", "three", "näme", "abcd"] {
            assert_eq!(starts_with(s, pat), s.starts_with(pat));
            assert_eq!(ends_with(s, pat), s.ends_with(pat));
            assert_eq!(contains(s, pat), s.contains(pat));
            assert_eq!(same_text(s, pat), s == pat);
        }
    }
}

#[test]
fn numbers_are_read() {
    assert_eq!(parse_number("0", 10), Some(0));
    assert_eq!(parse_number("+7", 10), Some(7));
    assert_eq!(parse_number("007", 10), Some(7));
    assert_eq!(parse_number("10", 10), Some(10));
    assert_eq!(parse_number("11", 10), None);
    assert_eq!(parse_number("", 10), None);
    assert_eq!(parse_number("+", 10), None);
    assert_eq!(parse_number("-1", 10), None);
    assert_eq!(parse_number("1a", 100), None);
    assert_eq!(parse_number("١", 100), None);
    assert_eq!(parse_number("4294967295", u32::MAX as u64), Some(4294967295));
    assert_eq!(parse_number("4294967296", u32::MAX as u64), None);
    assert_eq!(parse_number("18446744073709551615", u64::MAX), Some(u64::MAX));
    assert_eq!(parse_number("18446744073709551616", u64::MAX), None);
}

#[test]
fn numbers_are_written() {
    for n in [0, 7, 10, 42, 99, 100, 1234567890, u64::MAX] {
        assert_eq!(number_text(n), n.to_string());
        assert_eq!(parse_number(&number_text(n), u64::MAX), Some(n));
    }
}

#[test]
fn characters_have_as_many_bytes_as_in_utf8() {
    for c in ['a', '\u{7f}', '\u{80}', 'ß', '\u{7ff}', '\u{800}', '€', '\u{ffff}', '\u{10000}'] {
        assert_eq!(char_bytes(c), c.len_utf8());
    }
}

#[test]
fn texts_are_put_together() {
    assert_eq!(glue("/app", "/nix"), "/app/nix");
    assert_eq!(glue3("a", "", "c"), "ac");
    assert_eq!(copy_strings(&strings(&["x", "y"])), strings(&["x", "y"]));
    assert!(list_has(&strings(&["x", "y"]), "y"));
    assert!(!list_has(&strings(&["x", "y"]), "z"));
}

#[test]
fn texts_are_sorted_as_std_sorts_them() {
    let list = strings(&["b", "a", "ab", "", "ä", "Z", "b", "\u{10000}", "\u{ffff}", "a-", "a"]);
    let mut expected = list.clone();
    expected.sort();
    assert_eq!(sort_texts(&list), expected);
    // equal texts stay in order
    assert_eq!(text_positions(&strings(&["b", "a", "b", "a"])), vec![1, 3, 0, 2]);
}

#[test]
fn repeated_texts_are_dropped() {
    assert_eq!(unique(&strings(&["b", "a", "b", "c", "a"])), strings(&["b", "a", "c"]));
}

#[test]
fn bytes_are_searched() {
    assert_eq!(find_bytes(b"abcabc", b"abc", 1), Some(3));
    assert_eq!(find_bytes(b"abcabc", b"abd", 0), None);
    assert_eq!(find_bytes(b"ab", b"abc", 0), None);
    assert!(bytes_start_with(b"\x7fELF...", b"\x7fELF"));
    assert!(!bytes_start_with(b"\x7fEL", b"\x7fELF"));
    assert!(bytes_contain(b"xx\x00yy", b"\x00y"));
    assert!(!bytes_contain(b"", b"y"));
    assert!(bytes_equal(&vec![1, 2], &copy_bytes(&vec![1, 2])));
    assert!(!bytes_equal(&vec![1, 2], &vec![1, 3]));
}
