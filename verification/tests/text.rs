use cargo_vibe::number::{number_text, parse_u32};
use cargo_vibe::order::{comes_before, insert_text};
use cargo_vibe::text;

const SAMPLES: [&str; 14] = [
    "",
    " ",
    "a",
    " a b ",
    "\u{a0}x\u{3000}",
    "a\nb\r\nc",
    "\n\n",
    "a\r",
    "a\r\r\nb\n",
    "::",
    "a::b:c",
    "äöü",
    "\t\u{200b}\t",
    "no end\n",
];

#[test]
fn whitespace_is_that_of_std() {
    for code in 0..=0x10ffffu32 {
        if let Some(c) = char::from_u32(code) {
            assert_eq!(text::is_whitespace(c), c.is_whitespace(), "{code:x}");
        }
    }
}

#[test]
fn texts_are_taken_apart_as_std_does() {
    for s in SAMPLES {
        assert_eq!(text::trim(s), s.trim());
        assert_eq!(text::trim_start(s), s.trim_start());
        assert_eq!(text::is_blank(s), s.trim().is_empty());
        assert_eq!(text::chars_of(s), s.chars().collect::<Vec<char>>());
        assert_eq!(text::lines(s), s.lines().map(str::to_string).collect::<Vec<String>>());
        for pattern in SAMPLES {
            assert_eq!(text::starts_with(s, pattern), s.starts_with(pattern));
            assert_eq!(text::strip_prefix(s, pattern), s.strip_prefix(pattern));
            assert_eq!(text::split_once(s, pattern), s.split_once(pattern));
            assert_eq!(text::rsplit_once(s, pattern), s.rsplit_once(pattern));
            assert_eq!(text::same(s, pattern), s == pattern);
            if !pattern.is_empty() {
                assert_eq!(text::count_matches(s, pattern), s.matches(pattern).count());
            }
        }
    }
}

#[test]
fn matches_do_not_overlap() {
    assert_eq!(text::count_matches("aaaaa", "aa"), 2);
    assert_eq!(text::count_matches("abab", "b"), 2);
    assert_eq!(text::count_matches("", "b"), 0);
}

#[test]
fn texts_are_put_together() {
    let list: Vec<String> = ["a", "", "b"].map(str::to_string).to_vec();
    assert_eq!(text::join(&list, ", "), "a, , b");
    assert_eq!(text::join(&Vec::new(), ", "), "");
    assert_eq!(text::string_of(&vec!['x', 'ä', 'z'], 1, 3), "äz");
}

#[test]
fn numbers_are_read_as_std_reads_them() {
    for s in [
        "", "+", "-", "0", "7", "+7", "++7", "007", "-1", "4294967295", "4294967296", "99999999999",
        "1 ", "x", "1x", "٣",
    ] {
        assert_eq!(parse_u32(s), s.parse::<u32>().ok());
    }
}

#[test]
fn numbers_are_written_as_std_writes_them() {
    for n in [0, 7, 10, 42, 99, 100, 1234567890, usize::MAX] {
        assert_eq!(number_text(n), n.to_string());
    }
}

#[test]
fn a_written_number_reads_back() {
    for n in [0u32, 9, 10, 65535, u32::MAX] {
        assert_eq!(parse_u32(&number_text(n as usize)), Some(n));
    }
}

#[test]
fn texts_are_ordered_as_std_orders_them() {
    for a in SAMPLES {
        for b in SAMPLES {
            assert_eq!(comes_before(a, b), a < b);
        }
    }
}

#[test]
fn a_list_is_kept_in_order_without_repetition() {
    let mut list = Vec::new();
    for item in ["m", "z", "a", "m", "z", "b"] {
        insert_text(&mut list, item.to_string());
    }
    assert_eq!(list, ["a", "b", "m", "z"].map(str::to_string).to_vec());
}
