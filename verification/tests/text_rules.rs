use init_cleaner::lines::{lines_of, text_of};
use init_cleaner::order::{char_lt, string_lt};
use init_cleaner::text::{is_whitespace, same_text, split_tokens, to_chars, trimmed};

fn owned(items: &[&str]) -> Vec<String> {
    items.iter().map(|s| s.to_string()).collect()
}

const SAMPLES: [&str; 12] = [
    "",
    " ",
    "a",
    "  a b  ",
    "\ta\nb\r\nc",
    "x\u{a0}y\u{2003}z",
    "\u{3000}wide\u{3000}",
    "a\u{200b}b",
    "one  two\t\tthree\n\nfour",
    "\n",
    "\r\n",
    "tail \u{85}",
];

#[test]
fn whitespace_is_the_unicode_white_space_property() {
    for n in 0..=0x10FFFFu32 {
        if let Some(c) = char::from_u32(n) {
            assert_eq!(is_whitespace(c), c.is_whitespace(), "at U+{:04X}", n);
        }
    }
}

#[test]
fn whitespace_examples() {
    assert!(is_whitespace(' '));
    assert!(is_whitespace('\t'));
    assert!(is_whitespace('\n'));
    assert!(is_whitespace('\r'));
    assert!(is_whitespace('\u{a0}'));
    assert!(!is_whitespace('a'));
    assert!(!is_whitespace('\u{200b}'));
    assert!(!is_whitespace('_'));
}

#[test]
fn to_chars_gives_the_characters_in_order() {
    assert_eq!(to_chars("aé\u{10000}"), vec!['a', 'é', '\u{10000}']);
    assert_eq!(to_chars(""), Vec::<char>::new());
}

#[test]
fn tokens_are_the_runs_between_whitespace() {
    assert_eq!(split_tokens("  import   os \t as\no "), owned(&["import", "os", "as", "o"]));
    assert_eq!(split_tokens(""), Vec::<String>::new());
    assert_eq!(split_tokens(" \t\n"), Vec::<String>::new());
    assert_eq!(split_tokens("one"), owned(&["one"]));
    for sample in SAMPLES {
        let expected: Vec<String> = sample.split_whitespace().map(|t| t.to_string()).collect();
        assert_eq!(split_tokens(sample), expected);
    }
}

#[test]
fn trimmed_drops_whitespace_at_both_ends_only() {
    assert_eq!(trimmed("  a  b  "), "a  b");
    assert_eq!(trimmed("a"), "a");
    assert_eq!(trimmed(""), "");
    assert_eq!(trimmed(" \t\n"), "");
    assert_eq!(trimmed("\u{3000}a\u{a0}"), "a");
    for sample in SAMPLES {
        assert_eq!(trimmed(sample), sample.trim());
    }
}

#[test]
fn same_text_compares_character_by_character() {
    assert!(same_text("", ""));
    assert!(same_text("abc", "abc"));
    assert!(!same_text("abc", "abd"));
    assert!(!same_text("abc", "ab"));
    assert!(!same_text("ab", "abc"));
}

#[test]
fn order_of_strings_is_lexicographic() {
    assert!(string_lt("", "a"));
    assert!(string_lt("a", "b"));
    assert!(string_lt("a", "aa"));
    assert!(string_lt("B", "a"));
    assert!(string_lt("ab", "b"));
    assert!(!string_lt("a", "a"));
    assert!(!string_lt("b", "a"));
    assert!(!string_lt("aa", "a"));
    assert!(!string_lt("", ""));
    for a in SAMPLES {
        for b in SAMPLES {
            assert_eq!(string_lt(a, b), a < b);
        }
    }
}

#[test]
fn order_of_characters_is_by_code_point() {
    assert!(char_lt('a', 'b'));
    assert!(char_lt('Z', 'a'));
    assert!(char_lt('\u{d7ff}', '\u{e000}'));
    assert!(!char_lt('a', 'a'));
    assert!(!char_lt('\u{10000}', '\u{ffff}'));
}

#[test]
fn lines_end_at_line_feeds() {
    assert_eq!(lines_of("a\nb\n"), owned(&["a", "b"]));
    assert_eq!(lines_of("a\nb"), owned(&["a", "b"]));
    assert_eq!(lines_of("\n"), owned(&[""]));
    assert_eq!(lines_of("\n\n"), owned(&["", ""]));
    assert_eq!(lines_of("\na\n\nb"), owned(&["", "a", "", "b"]));
    assert_eq!(lines_of(""), Vec::<String>::new());
}

#[test]
fn carriage_return_before_a_line_feed_belongs_to_the_line_end() {
    assert_eq!(lines_of("a\r\nb\r\n"), owned(&["a", "b"]));
    assert_eq!(lines_of("a\r\r\nb"), owned(&["a\r", "b"]));
    assert_eq!(lines_of("a\rb\n"), owned(&["a\rb"]));
    assert_eq!(lines_of("a\r"), owned(&["a\r"]));
    assert_eq!(lines_of("\r\n"), owned(&[""]));
    assert_eq!(lines_of("\r"), owned(&["\r"]));
}

#[test]
fn lines_are_those_of_the_standard_library() {
    for sample in SAMPLES {
        let expected: Vec<String> = sample.lines().map(|l| l.to_string()).collect();
        assert_eq!(lines_of(sample), expected);
    }
}

#[test]
fn text_of_lines_ends_each_with_a_line_feed() {
    assert_eq!(text_of(&owned(&["a", "", "b"])), "a\n\nb\n");
    assert_eq!(text_of(&Vec::new()), "");
    assert_eq!(text_of(&owned(&[""])), "\n");
}

#[test]
fn lines_of_written_lines_are_the_lines() {
    let lines = owned(&["a", "", "  b  ", "]"]);
    assert_eq!(lines_of(&text_of(&lines)), lines);
}
