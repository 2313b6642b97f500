use std::cmp::Ordering;

use quick_alias::parse::{parse_line, split_lines, Line};
use quick_alias::text::{from_chars, is_whitespace, locate, to_chars, Place};

#[test]
fn white_space_is_what_the_standard_library_calls_white_space() {
    for code in 0..=0x10FFFFu32 {
        if let Some(c) = char::from_u32(code) {
            assert_eq!(is_whitespace(c), c.is_whitespace(), "U+{:04X}", code);
        }
    }
}

#[test]
fn some_white_space_and_some_not() {
    for c in [' ', '\t', '\n', '\r', '\u{0B}', '\u{0C}', '\u{85}', '\u{A0}', '\u{2003}', '\u{3000}'] {
        assert!(is_whitespace(c));
    }
    for c in ['a', '=', '"', '0', '\u{0}', '\u{200B}', '\u{180E}', '越'] {
        assert!(!is_whitespace(c));
    }
}

#[test]
fn locate_orders_strings_as_the_standard_library_does() {
    let samples = [
        "", "a", "b", "ab", "abc", "abd", "B", "aB", "é", "e", "z", "\u{1F600}", "\u{FFFF}",
        "a\u{1F600}", "a ", " a", "=", "alias",
    ];
    for a in samples {
        for b in samples {
            let expected = match a.cmp(b) {
                Ordering::Less => Place::Before,
                Ordering::Equal => Place::Same,
                Ordering::Greater => Place::After,
            };
            assert_eq!(locate(a, b), expected, "{:?} {:?}", a, b);
        }
    }
}

#[test]
fn locate_on_given_strings() {
    assert_eq!(locate("cp", "rebash"), Place::Before);
    assert_eq!(locate("rebash", "cp"), Place::After);
    assert_eq!(locate("cp", "cp"), Place::Same);
    assert_eq!(locate("cp", "cpp"), Place::Before);
    assert_eq!(locate("", ""), Place::Same);
}

#[test]
fn strings_to_characters_and_back() {
    let v = to_chars("aé\u{1F600} b");
    assert_eq!(v, vec!['a', 'é', '\u{1F600}', ' ', 'b']);
    assert_eq!(from_chars(&v, 0, 5), "aé\u{1F600} b");
    assert_eq!(from_chars(&v, 1, 3), "é\u{1F600}");
    assert_eq!(from_chars(&v, 2, 2), "");
    assert_eq!(to_chars(""), Vec::<char>::new());
}

#[test]
fn lines_are_what_stands_between_line_feeds() {
    for text in ["", "\n", "a", "a\n", "a\nb", "a\n\nb\n", "\n\n", "ls\ncd /tmp\nls\n", "é\r\nü"] {
        let expected: Vec<String> = text.split('\n').map(|l| l.to_string()).collect();
        assert_eq!(split_lines(text), expected, "{:?}", text);
    }
    assert_eq!(split_lines("ls\ncd /tmp\nls\n"), vec!["ls", "cd /tmp", "ls", ""]);
}

fn definition(line: &str) -> Option<(String, String)> {
    match parse_line(line) {
        Line::Definition { name, command } => Some((name, command)),
        _ => None,
    }
}

#[test]
fn parse_line_tells_the_three_kinds_of_lines() {
    assert!(matches!(parse_line(""), Line::Ignored));
    assert!(matches!(parse_line("   "), Line::Ignored));
    assert!(matches!(parse_line("aliasx=\"y\""), Line::Ignored));
    assert!(matches!(parse_line("Alias x=\"y\""), Line::Ignored));
    assert!(matches!(parse_line("echo alias x=\"y\""), Line::Ignored));
    assert!(matches!(parse_line("alias"), Line::Malformed));
    assert!(matches!(parse_line("alias x"), Line::Malformed));
    assert!(matches!(parse_line("alias x=y"), Line::Malformed));
    assert_eq!(definition("alias x=yz"), Some(("x".to_string(), "".to_string())));
    assert_eq!(
        definition("alias cp=\"cp -i\""),
        Some(("cp".to_string(), "cp -i".to_string()))
    );
    assert_eq!(definition("alias =\"v\""), Some(("".to_string(), "v".to_string())));
    assert_eq!(
        definition("\u{2003}alias\u{a0}a = \"b = c\" "),
        Some(("a ".to_string(), "\"b = c".to_string()))
    );
}

#[test]
fn parse_line_is_what_splitting_and_joining_gives() {
    let lines = [
        "alias cp=\"cp -i\"",
        "alias   a  b = \"c   d\"  e",
        "alias x==\"=\"=",
        "alias k=\"v\" # comment",
        "\talias\tt=\"\tq\t\"",
        "alias ü=\"ö ä\"",
    ];
    for line in lines {
        let mut split = line.split_whitespace();
        assert_eq!(split.next(), Some("alias"));
        let rest = split.collect::<Vec<_>>().join(" ");
        let mut split_eq = rest.split("=");
        let alias = split_eq.next().unwrap().to_string();
        let command: Vec<char> = split_eq.collect::<Vec<_>>().join("=").chars().collect();
        let unquoted: String = command[1..command.len() - 1].iter().collect();
        assert_eq!(definition(line), Some((alias, unquoted)), "{:?}", line);
    }
}
