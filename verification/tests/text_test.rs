use lisensor::lines::{contains_crlf, next_line, push_eol};
use lisensor::order::{compare_text, Order};
use lisensor::text::{
    append_chars, chars_of, find_char, match_prefix, push_decimal, same_as_text, string_of,
    text_has_prefix,
};

fn chars(s: &str) -> Vec<char> {
    s.chars().collect()
}

#[test]
fn chars_and_strings_convert_both_ways() {
    assert_eq!(chars_of("aß€😀"), vec!['a', 'ß', '€', '😀']);
    assert_eq!(chars_of(""), Vec::<char>::new());
    assert_eq!(string_of(&['x', 'ÿ', '\n']), "xÿ\n");
    assert_eq!(string_of(&chars_of("round trip")), "round trip");
}

#[test]
fn append_chars_adds_at_the_end() {
    let mut s = String::from("ab");
    append_chars(&mut s, &['c', 'd']);
    assert_eq!(s, "abcd");
    append_chars(&mut s, &[]);
    assert_eq!(s, "abcd");
}

#[test]
fn match_prefix_tests_the_start_of_a_line() {
    assert_eq!(match_prefix(&chars("hello"), "he"), Some(2));
    assert_eq!(match_prefix(&chars("hello"), ""), Some(0));
    assert_eq!(match_prefix(&chars("hello"), "hello"), Some(5));
    assert_eq!(match_prefix(&chars("héllo"), "hé"), Some(2));
    assert_eq!(match_prefix(&chars("hello"), "hello!"), None);
    assert_eq!(match_prefix(&chars("hello"), "el"), None);
    assert_eq!(match_prefix(&chars(""), "a"), None);
    assert_eq!(match_prefix(&chars(""), ""), Some(0));
}

#[test]
fn text_has_prefix_tests_the_start_of_a_text() {
    assert!(text_has_prefix("hello", "he"));
    assert!(text_has_prefix("hello", ""));
    assert!(text_has_prefix("hello", "hello"));
    assert!(text_has_prefix("€uro", "€"));
    assert!(text_has_prefix("", ""));
    assert!(!text_has_prefix("hello", "hello!"));
    assert!(!text_has_prefix("hello", "el"));
    assert!(!text_has_prefix("", "a"));
    assert!(!text_has_prefix("euro", "€"));
}

#[test]
fn same_as_text_tests_equality() {
    assert!(same_as_text(&chars("abc"), "abc"));
    assert!(same_as_text(&chars(""), ""));
    assert!(same_as_text(&chars("ä€"), "ä€"));
    assert!(!same_as_text(&chars("abc"), "ab"));
    assert!(!same_as_text(&chars("ab"), "abc"));
    assert!(!same_as_text(&chars("abc"), "abd"));
    assert!(!same_as_text(&chars(""), "a"));
    assert!(!same_as_text(&chars("a"), ""));
}

#[test]
fn find_char_gives_the_first_position() {
    let text = chars("a-b-c");
    assert_eq!(find_char(&text, 0, '-'), 1);
    assert_eq!(find_char(&text, 1, '-'), 1);
    assert_eq!(find_char(&text, 2, '-'), 3);
    assert_eq!(find_char(&text, 4, '-'), 5);
    assert_eq!(find_char(&text, 5, '-'), 5);
    assert_eq!(find_char(&text, 0, 'x'), 5);
}

#[test]
fn next_line_stops_at_the_line_feed() {
    let text = chars("one\ntwo\r\n\nlast");
    assert_eq!(next_line(&text, 0), (3, 4));
    assert_eq!(next_line(&text, 4), (7, 9));
    assert_eq!(next_line(&text, 9), (9, 10));
    assert_eq!(next_line(&text, 10), (14, 14));
}

#[test]
fn next_line_strips_one_carriage_return_before_a_line_feed_only() {
    let text = chars("a\r\r\nb\r");
    assert_eq!(next_line(&text, 0), (2, 4));
    assert_eq!(next_line(&text, 4), (6, 6));
    let text = chars("\r\n");
    assert_eq!(next_line(&text, 0), (0, 2));
}

#[test]
fn contains_crlf_finds_the_pair() {
    assert!(contains_crlf(&chars("a\r\nb")));
    assert!(contains_crlf(&chars("\r\n")));
    assert!(contains_crlf(&chars("a\nb\r\n")));
    assert!(!contains_crlf(&chars("a\nb\n")));
    assert!(!contains_crlf(&chars("a\rb\n")));
    assert!(!contains_crlf(&chars("\n\r")));
    assert!(!contains_crlf(&chars("\r")));
    assert!(!contains_crlf(&chars("")));
}

#[test]
fn push_eol_appends_the_line_ending() {
    let mut s = String::from("x");
    push_eol(&mut s, false);
    assert_eq!(s, "x\n");
    push_eol(&mut s, true);
    assert_eq!(s, "x\n\r\n");
}

#[test]
fn push_decimal_writes_the_numeral() {
    for (n, expected) in [
        (0u32, "0"),
        (7, "7"),
        (10, "10"),
        (99, "99"),
        (100, "100"),
        (2025, "2025"),
        (1000000, "1000000"),
        (4294967295, "4294967295"),
    ] {
        let mut s = String::from("#");
        push_decimal(&mut s, n);
        assert_eq!(s, format!("#{}", expected));
        assert_eq!(s, format!("#{}", n));
    }
}

#[test]
fn compare_orders_as_strings_do() {
    let words = [
        "", "a", "ab", "abc", "abd", "b", "ba", "B", "z", "zsh", "yaml", "yml", "é", "€", "😀",
        "a😀", "a€",
    ];
    for a in words {
        for b in words {
            let expected = if a < b {
                Order::Before
            } else if a == b {
                Order::Same
            } else {
                Order::After
            };
            assert_eq!(compare_text(a, b), expected, "{:?} {:?}", a, b);
        }
    }
}
