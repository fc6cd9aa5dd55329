use codeowners_validation::parser::{
    parse_codeowners, parse_line, parse_lines, validate_pattern, CodeOwnerRule, ParsedLine,
};
use codeowners_validation::validators::check_exists::normalize_path;

#[test]
fn parses_valid_lines() {
    let (rules, invalids) = parse_codeowners("src/lib.rs @alice\n");
    assert_eq!(rules.len(), 1);
    assert_eq!(rules[0].pattern, "src/lib.rs");
    assert_eq!(rules[0].owners, vec!["@alice"]);
    assert_eq!(rules[0].original_path, "src/lib.rs");
    assert!(invalids.is_empty());
}

#[test]
fn ignores_comments_and_blanks() {
    let (rules, _) = parse_codeowners("# comment\n\nsrc/main.rs @bob\n");
    assert_eq!(rules.len(), 1);
    assert_eq!(rules[0].owners, vec!["@bob"]);
}

#[test]
fn detects_invalid_glob() {
    let (_, invalids) = parse_codeowners("docs/[ @bad\n");
    assert_eq!(invalids.len(), 1);
    assert!(invalids[0].content.contains("docs/["));
}

#[test]
fn trims_leading_trailing_slashes() {
    let (rules, _) = parse_codeowners("/foo/ @team\n");
    assert_eq!(rules[0].pattern, "foo");
    assert_eq!(rules[0].original_path, "/foo/");
}

#[test]
fn parses_multiple_owners() {
    let (rules, _) = parse_codeowners("src/ @alice @bob\n");
    assert_eq!(rules[0].owners, vec!["@alice", "@bob"]);
}

#[test]
fn handles_wildcard_patterns() {
    let (rules, invalids) = parse_codeowners("*.md @docs-team\n**/*.rs @rust-team\n");
    assert_eq!(rules.len(), 2);
    assert!(invalids.is_empty());
    assert_eq!(rules[0].pattern, "*.md");
    assert_eq!(rules[1].pattern, "**/*.rs");
}

#[test]
fn parser_handles_anchored_patterns() {
    let (rules, _) = parse_codeowners("/README.md @docs\n/src/ @dev\n");
    assert_eq!(rules.len(), 2);
    assert_eq!(rules[0].pattern, "README.md");
    assert_eq!(rules[0].original_path, "/README.md");
    assert_eq!(rules[1].pattern, "src");
    assert_eq!(rules[1].original_path, "/src/");
}

#[test]
fn rejects_empty_pattern() {
    let (rules, invalids) = parse_codeowners("/ @team\n");
    assert_eq!(rules.len(), 0);
    assert_eq!(invalids.len(), 1);
}

#[test]
fn test_parse_codeowners_file() {
    let codeowners_content = "\
            # Sample CODEOWNERS file\n\
            *.rs @src-team\n\
            src/**/*.rs @src-team\n\
            tests/*.rs @test-team\n\
            ";
    let (rules, invalid_lines) = parse_codeowners(codeowners_content);

    let expected_rules = vec![
        CodeOwnerRule {
            pattern: "*.rs".to_string(),
            owners: vec!["@src-team".to_string()],
            original_path: "*.rs".to_string(),
        },
        CodeOwnerRule {
            pattern: "src/**/*.rs".to_string(),
            owners: vec!["@src-team".to_string()],
            original_path: "src/**/*.rs".to_string(),
        },
        CodeOwnerRule {
            pattern: "tests/*.rs".to_string(),
            owners: vec!["@test-team".to_string()],
            original_path: "tests/*.rs".to_string(),
        },
    ];
    assert_eq!(rules.len(), expected_rules.len());
    for (rule, expected_rule) in rules.iter().zip(expected_rules.iter()) {
        assert_eq!(rule.pattern, expected_rule.pattern);
        assert_eq!(rule.owners, expected_rule.owners);
        assert_eq!(rule.original_path, expected_rule.original_path);
    }
    assert!(invalid_lines.is_empty());
}

#[test]
fn invalid_lines_carry_their_number_and_text() {
    let (rules, invalids) = parse_codeowners("# head\nsrc/ @a\n\n  / @team  \nlib/[ @b\nREADME.md\n");
    assert_eq!(rules.len(), 2);
    assert_eq!(rules[0].original_path, "src/");
    assert_eq!(rules[1].original_path, "README.md");
    assert!(rules[1].owners.is_empty());
    assert_eq!(invalids.len(), 2);
    assert_eq!(invalids[0].line_number, 4);
    assert_eq!(invalids[0].content, "  / @team  ");
    assert_eq!(invalids[1].line_number, 5);
    assert_eq!(invalids[1].content, "lib/[ @b");
}

#[test]
fn strips_one_separator_at_each_end() {
    let (rules, invalids) = parse_codeowners("//docs// @team\n// @team\n");
    assert_eq!(rules.len(), 1);
    assert_eq!(rules[0].pattern, "/docs/");
    assert_eq!(rules[0].original_path, "//docs//");
    assert_eq!(invalids.len(), 1);
    assert_eq!(invalids[0].line_number, 2);
}

#[test]
fn carriage_returns_end_lines_too() {
    let (rules, invalids) = parse_codeowners("a.txt @x\r\n/ @y\r\nb.txt @z");
    assert_eq!(rules.len(), 2);
    assert_eq!(rules[0].owners, vec!["@x"]);
    assert_eq!(rules[1].pattern, "b.txt");
    assert_eq!(rules[1].owners, vec!["@z"]);
    assert_eq!(invalids.len(), 1);
    assert_eq!(invalids[0].content, "/ @y");
}

#[test]
fn words_are_set_apart_by_any_white_space() {
    let (rules, _) = parse_codeowners("\t docs/\u{a0}@a\u{2003}@b \u{3000}\n");
    assert_eq!(rules.len(), 1);
    assert_eq!(rules[0].original_path, "docs/");
    assert_eq!(rules[0].pattern, "docs");
    assert_eq!(rules[0].owners, vec!["@a", "@b"]);
}

#[test]
fn comment_may_follow_white_space() {
    let (rules, invalids) = parse_codeowners("   # not a rule\n#also @none\n");
    assert!(rules.is_empty());
    assert!(invalids.is_empty());
}

#[test]
fn empty_text_has_no_lines() {
    let (rules, invalids) = parse_codeowners("");
    assert!(rules.is_empty());
    assert!(invalids.is_empty());
}

#[test]
fn parse_lines_numbers_from_one() {
    let lines = vec!["/ @a".to_string(), "ok.txt @b".to_string(), "[ @c".to_string()];
    let (rules, invalids) = parse_lines(&lines);
    assert_eq!(rules.len(), 1);
    assert_eq!(rules[0].pattern, "ok.txt");
    assert_eq!(invalids.len(), 2);
    assert_eq!(invalids[0].line_number, 1);
    assert_eq!(invalids[1].line_number, 3);
}

#[test]
fn parse_line_tells_the_three_outcomes() {
    assert!(matches!(parse_line("", 1), ParsedLine::Skipped));
    assert!(matches!(parse_line("  \t", 2), ParsedLine::Skipped));
    assert!(matches!(parse_line("# c", 3), ParsedLine::Skipped));
    match parse_line("/a/b/ @o1 @o2", 4) {
        ParsedLine::Rule(rule) => {
            assert_eq!(rule.pattern, "a/b");
            assert_eq!(rule.original_path, "/a/b/");
            assert_eq!(rule.owners, vec!["@o1", "@o2"]);
        }
        _ => panic!("a rule was expected"),
    }
    match parse_line("a{b @o", 7) {
        ParsedLine::Invalid(line) => {
            assert_eq!(line.line_number, 7);
            assert_eq!(line.content, "a{b @o");
        }
        _ => panic!("an invalid line was expected"),
    }
}

#[test]
fn validate_pattern_accepts_and_rejects() {
    assert_eq!(validate_pattern("docs", "/docs/"), Ok(()));
    assert_eq!(validate_pattern("*.rs", "*.rs"), Ok(()));
    assert_eq!(validate_pattern("a[", "a["), Err("invalid pattern"));
    assert_eq!(validate_pattern("a[", "/a[/"), Err("invalid pattern"));
    assert_eq!(validate_pattern("{a", "{a/"), Err("invalid pattern"));
}

#[test]
fn clone_keeps_every_field() {
    let rule = CodeOwnerRule {
        pattern: "docs".to_string(),
        owners: vec!["@a".to_string(), "@b".to_string()],
        original_path: "/docs/".to_string(),
    };
    let copy = rule.clone();
    assert_eq!(copy, rule);
}

#[test]
fn path_that_ends_with_a_separator_loses_its_last_component() {
    assert_eq!(normalize_path("a/b"), "a/b");
    assert_eq!(normalize_path("a"), "a");
    assert_eq!(normalize_path(""), "");
    assert_eq!(normalize_path("a/b/"), "a");
    assert_eq!(normalize_path("a/"), "");
    assert_eq!(normalize_path("/"), "/");
}
