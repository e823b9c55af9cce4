use cloud_hypervisor_jailer::text::{
    char_vec, comes_before, concatenate, contains, decimal_text, has_no_nul, has_word, is_white_space,
    parse_number, same_text, starts_with, trim, with_newline,
};

const TEXTS: [&str; 16] = [
    "", " ", "a", "ab", "b", "abc", "\u{e9}", "\u{ffff}", "\u{10000}", "aa", "a b", "--seccomp",
    "--seccomp=", "cpu.max", "cpu-x", "\n",
];

#[test]
fn white_space_is_that_of_unicode() {
    for c in '\0'..=char::MAX {
        assert_eq!(is_white_space(c), c.is_whitespace());
    }
}

#[test]
fn texts_relate_as_on_the_platform() {
    for left in TEXTS {
        assert_eq!(char_vec(left), left.chars().collect::<Vec<char>>());
        for right in TEXTS {
            assert_eq!(same_text(left, right), left == right);
            assert_eq!(comes_before(left, right), left < right);
            assert_eq!(contains(left, right), left.contains(right));
            assert_eq!(starts_with(left, right), left.starts_with(right));
        }
    }
    assert!(contains("aaab", "aab"));
    assert!(!contains("aaa", "aab"));
}

#[test]
fn words_are_separated_by_white_space() {
    for text in ["cpu io memory\n", "", "  ", "cpuset", "\tcpu\u{a0}io", "cpu", " io  cpu "] {
        for word in ["cpu", "io", "memory", "cpuset", "", "cpu io", "o"] {
            assert_eq!(
                has_word(text, word),
                text.split_whitespace().any(|item| item == word)
            );
        }
    }
}

#[test]
fn numbers_are_read_as_on_the_platform() {
    for text in [
        "40\n", " 40 ", "", "+", "-1", "+7", "++7", "4 0", "0x1", "007", "18446744073709551615",
        "18446744073709551616", "99999999999999999999999", "\u{661}", "\u{2003}12\u{3000}", "1_0",
    ] {
        assert_eq!(trim(text), text.trim());
        assert_eq!(parse_number(trim(text)), text.trim().parse::<u64>().ok());
    }
    assert_eq!(parse_number("40"), Some(40));
}

#[test]
fn decimal_text_reads_back() {
    for value in [0, 7, 10, 42, 99, 100, 1_048_576, u64::MAX - 1, u64::MAX] {
        assert_eq!(decimal_text(value), format!("{value}"));
        assert_eq!(parse_number(&decimal_text(value)), Some(value));
    }
}

#[test]
fn texts_are_put_together() {
    assert_eq!(concatenate("a", "b", "c"), "abc");
    assert_eq!(with_newline("max"), "max\n");
    assert!(has_no_nul("a0\u{1}"));
    assert!(!has_no_nul("a\0"));
}
