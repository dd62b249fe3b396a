use config_cli::flatten::{flatten_value, is_comment_line, JOINER};
use config_cli::text::{chars_of, is_space_char, join_chars, slice_of, split_lines, trimmed};

fn chars(s: &str) -> Vec<char> {
    s.chars().collect()
}

fn text(v: &[char]) -> String {
    v.iter().collect()
}

/// The same steps with the functions of the standard library.
fn std_flatten(raw: &str) -> String {
    raw.trim()
        .lines()
        .filter(|line| !line.trim_start().starts_with('#'))
        .collect::<Vec<_>>()
        .join("||||")
}

#[test]
fn flatten_multi_line_value_with_comment() {
    assert_eq!(flatten_value("x\n# comment\ny"), "x||||y");
}

#[test]
fn flatten_single_line_is_trimmed() {
    assert_eq!(flatten_value("  value \t"), "value");
    assert_eq!(flatten_value("value"), "value");
}

#[test]
fn flatten_empty_and_blank() {
    assert_eq!(flatten_value(""), "");
    assert_eq!(flatten_value(" \n\t\r\n "), "");
}

#[test]
fn flatten_only_comments() {
    assert_eq!(flatten_value("# one\n# two"), "");
    assert_eq!(flatten_value("# one"), "");
}

#[test]
fn flatten_comment_after_whitespace_is_dropped() {
    assert_eq!(flatten_value("a\n   # indented comment\nb"), "a||||b");
    assert_eq!(flatten_value("a\n\t#x\nb"), "a||||b");
}

#[test]
fn flatten_keeps_hash_inside_a_line() {
    assert_eq!(flatten_value("a # not a comment\nb#c"), "a # not a comment||||b#c");
}

#[test]
fn flatten_keeps_empty_lines() {
    assert_eq!(flatten_value("a\n\nb"), "a||||||||b");
}

#[test]
fn flatten_carriage_returns() {
    assert_eq!(flatten_value("a\r\nb\r\nc"), "a||||b||||c");
    assert_eq!(flatten_value("a\rb"), "a\rb");
    assert_eq!(flatten_value("a\r\r\nb"), "a\r||||b");
}

#[test]
fn flatten_can_be_split_again() {
    let flat = flatten_value("first\nsecond\n# gone\nthird");
    let parts: Vec<&str> = flat.split(JOINER).collect();
    assert_eq!(parts, vec!["first", "second", "third"]);
}

#[test]
fn flatten_agrees_with_the_standard_library() {
    let inputs = [
        "",
        "x",
        "x\n# comment\ny",
        "  lead and trail  ",
        "\n\nx\n\n",
        "a\r\nb\r\n",
        "a\rb\r",
        "\u{a0}nbsp\u{a0}",
        "\u{3000}wide\u{3000}\n\u{2003}# em\nz",
        "\u{85}nel\u{85}",
        "\u{200b}zero width is no space\u{200b}",
        "\u{1680}\u{2000}\u{200a}\u{2028}\u{2029}\u{202f}\u{205f}x",
        "#",
        " # ",
        "a\n#\n#\nb\n#",
        "tab\there",
        "ünï\ncödé\n# ß\nend",
        "a\n \nb",
        "\u{b}\u{c}x\u{1c}",
    ];
    for raw in inputs {
        assert_eq!(flatten_value(raw), std_flatten(raw), "input {:?}", raw);
    }
}

#[test]
fn whitespace_agrees_with_the_standard_library() {
    let mut n: u32 = 0;
    while n <= 0x10ffff {
        if let Some(c) = char::from_u32(n) {
            assert_eq!(is_space_char(c), c.is_whitespace(), "code point {:x}", n);
        }
        n += 1;
    }
}

#[test]
fn comment_lines() {
    assert!(is_comment_line(&chars("# c")));
    assert!(is_comment_line(&chars("   #")));
    assert!(!is_comment_line(&chars("")));
    assert!(!is_comment_line(&chars("   ")));
    assert!(!is_comment_line(&chars("a#")));
}

#[test]
fn chars_of_lists_code_points() {
    assert_eq!(chars_of("aé\u{1F600}"), vec!['a', 'é', '\u{1F600}']);
    assert_eq!(chars_of(""), Vec::<char>::new());
}

#[test]
fn trimmed_and_slice() {
    assert_eq!(text(&trimmed(&chars(" \t a b \n"))), "a b");
    assert_eq!(text(&trimmed(&chars("   "))), "");
    assert_eq!(text(&slice_of(&chars("abcdef"), 2, 4)), "cd");
    assert_eq!(text(&slice_of(&chars("abcdef"), 3, 3)), "");
}

#[test]
fn split_lines_agrees_with_the_standard_library() {
    let inputs = ["", "a", "a\n", "a\nb", "a\r\nb\r", "\n", "\n\n", "\r\n", "a\n\nb\n", "\r", "x\r\r\n"];
    for raw in inputs {
        let got: Vec<String> = split_lines(&chars(raw)).iter().map(|l| text(l)).collect();
        let want: Vec<String> = raw.lines().map(|l| l.to_string()).collect();
        assert_eq!(got, want, "input {:?}", raw);
    }
}

#[test]
fn join_chars_agrees_with_the_standard_library() {
    let cases: [&[&str]; 5] = [&[], &["a"], &["a", "b"], &["", ""], &["x", "", "y"]];
    for parts in cases {
        let vecs: Vec<Vec<char>> = parts.iter().map(|p| chars(p)).collect();
        assert_eq!(text(&join_chars(&vecs, &chars("||||"))), parts.join("||||"));
    }
}
