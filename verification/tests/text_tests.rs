use codeowners_validation::text::{
    chars_of, find_component, is_whitespace_char, range_spells, scan, split_lines, split_tokens,
    string_of, trim_range, Boundary,
};

fn chars(text: &str) -> Vec<char> {
    text.chars().collect()
}

#[test]
fn white_space_is_what_unicode_says() {
    for code in 0..0x11_0000u32 {
        if let Some(c) = char::from_u32(code) {
            assert_eq!(is_whitespace_char(c), c.is_whitespace(), "U+{:04X}", code);
        }
    }
}

#[test]
fn chars_of_keeps_every_character() {
    assert_eq!(chars_of(""), Vec::<char>::new());
    assert_eq!(chars_of("a/é✓"), vec!['a', '/', 'é', '✓']);
}

#[test]
fn string_of_takes_the_range() {
    let text = chars("héllo wörld");
    assert_eq!(string_of(&text, 0, 5), "héllo");
    assert_eq!(string_of(&text, 6, 11), "wörld");
    assert_eq!(string_of(&text, 3, 3), "");
}

#[test]
fn range_spells_compares_the_range() {
    let text = chars("xx all yy");
    assert!(range_spells(&text, 3, 6, &chars("all")));
    assert!(!range_spells(&text, 3, 7, &chars("all")));
    assert!(!range_spells(&text, 2, 5, &chars("all")));
    assert!(range_spells(&text, 4, 4, &chars("")));
}

#[test]
fn scan_stops_at_the_first_boundary() {
    let text = chars("ab, c\nd");
    assert_eq!(scan(&text, 0, Boundary::Comma), 2);
    assert_eq!(scan(&text, 2, Boundary::Comma), 2);
    assert_eq!(scan(&text, 3, Boundary::Comma), 7);
    assert_eq!(scan(&text, 0, Boundary::Newline), 5);
    assert_eq!(scan(&text, 0, Boundary::Whitespace), 3);
    assert_eq!(scan(&text, 3, Boundary::NonWhitespace), 4);
    assert_eq!(scan(&text, 5, Boundary::NonWhitespace), 6);
    assert_eq!(scan(&text, 7, Boundary::Whitespace), 7);
}

#[test]
fn lines_end_with_a_line_feed_or_with_the_text() {
    assert_eq!(split_lines(&chars("")), Vec::<String>::new());
    assert_eq!(split_lines(&chars("\n")), vec![""]);
    assert_eq!(split_lines(&chars("a")), vec!["a"]);
    assert_eq!(split_lines(&chars("a\n")), vec!["a"]);
    assert_eq!(split_lines(&chars("a\n\nb")), vec!["a", "", "b"]);
    assert_eq!(split_lines(&chars("a\r\nb\r\n")), vec!["a", "b"]);
    assert_eq!(split_lines(&chars("a\rb\r")), vec!["a\rb\r"]);
    assert_eq!(split_lines(&chars("\r\n\r\r\n")), vec!["", "\r"]);
}

#[test]
fn lines_agree_with_std() {
    for text in ["", "x", "x\ny", "x\r\ny\n", "\n\n", " a \n\tb\r\n\r\nc", "\r\n", "a\n\r\nb\r"] {
        let expected: Vec<String> = text.lines().map(|line| line.to_string()).collect();
        assert_eq!(split_lines(&chars(text)), expected, "{:?}", text);
    }
}

#[test]
fn tokens_are_the_stretches_without_white_space() {
    assert_eq!(split_tokens(&chars("")), Vec::<String>::new());
    assert_eq!(split_tokens(&chars(" \t ")), Vec::<String>::new());
    assert_eq!(split_tokens(&chars("one")), vec!["one"]);
    assert_eq!(split_tokens(&chars("  /a/b/  @x\t@y ")), vec!["/a/b/", "@x", "@y"]);
    for text in ["a b", " a\u{2028}b\u{85}c ", "x\r\ny", "\u{3000}", "é ✓"] {
        let expected: Vec<String> = text.split_whitespace().map(|word| word.to_string()).collect();
        assert_eq!(split_tokens(&chars(text)), expected, "{:?}", text);
    }
}

#[test]
fn trim_range_drops_the_white_space_at_both_ends() {
    let text = chars(",  exists \t,all,   ,");
    assert_eq!(trim_range(&text, 1, 11), (3, 9));
    assert_eq!(trim_range(&text, 12, 15), (12, 15));
    assert_eq!(trim_range(&text, 16, 19), (19, 19));
    assert_eq!(trim_range(&text, 0, 0), (0, 0));
    for (from, end) in [(1usize, 11usize), (12, 15), (16, 19), (0, 20), (5, 10)] {
        let (start, stop) = trim_range(&text, from, end);
        let part: String = text[from..end].iter().collect();
        let kept: String = text[start..stop].iter().collect();
        assert_eq!(kept, part.trim());
    }
}

#[test]
fn components_lie_between_separators() {
    let git = chars(".git");
    for (path, any, inner) in [
        ("", false, false),
        (".git", true, false),
        (".git/", true, true),
        (".git/x", true, true),
        ("a/.git", true, false),
        ("a/.git/b", true, true),
        ("a/.git/b/.git", true, true),
        ("a.git/b", false, false),
        ("a/.gitx/b", false, false),
        ("a/x.git", false, false),
        (".gi", false, false),
        ("/.git", true, false),
        ("//.git//", true, true),
    ] {
        assert_eq!(find_component(&chars(path), &git, false), any, "{:?}", path);
        assert_eq!(find_component(&chars(path), &git, true), inner, "{:?}", path);
    }
}
