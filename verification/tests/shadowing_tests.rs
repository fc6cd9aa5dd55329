use codeowners_validation::parser::CodeOwnerRule;
use codeowners_validation::validators::avoid_shadowing::{validate_avoid_shadowing, GlobRule};

fn glob_rule(text: &str, owner: &str, glob: &str) -> GlobRule {
    GlobRule {
        rule: CodeOwnerRule {
            pattern: text.to_string(),
            owners: vec![owner.to_string()],
            original_path: text.to_string(),
        },
        glob: glob.to_string(),
    }
}

fn create_rules() -> Vec<GlobRule> {
    vec![
        glob_rule("/build/logs/", "octocat", "**/build/logs"),
        glob_rule("*", "s1", "**/*"),
        glob_rule("/script/*", "o2", "**/script/*"),
        glob_rule("/b*/logs", "s5", "**/b*/logs"),
        glob_rule("/b*/other", "o1", "**/b*/other"),
    ]
}

#[test]
fn test_check_avoid_shadowing_with_shadowing() {
    let rules = create_rules();

    let result = validate_avoid_shadowing(&rules).unwrap();

    assert_eq!(result.len(), 4);
    assert!(result.contains(&rules[1].rule)); // *
    assert!(result.contains(&rules[2].rule)); // /script/*
    assert!(result.contains(&rules[3].rule)); // /b*/logs
    assert!(result.contains(&rules[4].rule)); // /b*/other
}

#[test]
fn test_check_avoid_shadowing_no_shadowing() {
    let rules = vec![
        glob_rule("/src/main.rs", "team-main", "**/src/main.rs"),
        glob_rule("/src/lib.rs", "team-lib", "**/src/lib.rs"),
        glob_rule("/tests/*", "team-tests", "**/tests/*"),
    ];

    let result = validate_avoid_shadowing(&rules).unwrap();

    assert_eq!(result.len(), 0);
}

#[test]
fn test_check_avoid_shadowing_single_rule() {
    let rules = vec![glob_rule("/docs/*", "team-docs", "**/docs/*")];

    let result = validate_avoid_shadowing(&rules).unwrap();

    assert_eq!(result.len(), 0);
}

#[test]
fn test_check_avoid_shadowing_multiple_shadowing() {
    let rules = vec![
        glob_rule("/src/*", "team-src", "**/src/*"),
        glob_rule("/src/main/*", "team-main", "**/src/main/*"),
        glob_rule("/src/main/core/*", "team-core", "**/src/main/core/*"),
        glob_rule("/src/main/core/api/*", "team-api", "**/src/main/core/api/*"),
    ];

    let result = validate_avoid_shadowing(&rules).unwrap();
    assert_eq!(result.len(), 4);
    assert!(result.contains(&rules[0].rule)); // /src/*
    assert!(result.contains(&rules[1].rule)); // /src/main/*
    assert!(result.contains(&rules[2].rule)); // /src/main/core/*
    assert!(result.contains(&rules[3].rule)); // /src/main/core/api/*
}

#[test]
fn test_check_avoid_shadowing_shadowing_and_non_shadowing() {
    let rules = vec![
        glob_rule("/src/*", "team-src", "**/src/*"),
        glob_rule("/tests/*", "team-tests", "**/tests/*"),
        glob_rule("/src/main/*", "team-main", "**/src/main/*"),
        glob_rule("/docs/*", "team-docs", "**/docs/*"),
    ];

    let result = validate_avoid_shadowing(&rules).unwrap();

    assert_eq!(result.len(), 2);
    assert!(result.contains(&rules[0].rule)); // /src/*
    assert!(result.contains(&rules[2].rule)); // /src/main/*
}

#[test]
fn broad_rule_and_the_rule_it_covers_are_both_reported() {
    let rules = vec![glob_rule("*", "@all", "*"), glob_rule("docs/readme.md", "@docs", "**/docs/readme.md")];
    let result = validate_avoid_shadowing(&rules).unwrap();
    let texts: Vec<&str> = result.iter().map(|rule| rule.original_path.as_str()).collect();
    assert_eq!(texts, vec!["*", "docs/readme.md"]);
}

#[test]
fn narrow_rule_before_the_broad_one_is_covered_by_nothing() {
    let rules = vec![
        glob_rule("docs/readme.md", "@docs", "**/docs/readme.md"),
        glob_rule("lib/", "@lib", "**/lib"),
        glob_rule("*.md", "@md", "*.md"),
    ];
    let result = validate_avoid_shadowing(&rules).unwrap();
    assert!(result.is_empty());
}

#[test]
fn reported_rules_keep_the_order_of_the_list() {
    let rules = vec![
        glob_rule("a/*", "@a", "a/*"),
        glob_rule("b/x", "@b", "b/x"),
        glob_rule("a/b/c", "@c", "a/b/c"),
        glob_rule("b/*", "@d", "b/*"),
        glob_rule("a/q", "@e", "a/q"),
    ];
    let result = validate_avoid_shadowing(&rules).unwrap();
    let owners: Vec<&str> = result.iter().map(|rule| rule.owners[0].as_str()).collect();
    assert_eq!(owners, vec!["@a", "@c", "@e"]);
}

#[test]
fn no_rules_nothing_reported() {
    let rules: Vec<GlobRule> = Vec::new();
    assert!(validate_avoid_shadowing(&rules).unwrap().is_empty());
}

#[test]
fn malformed_glob_ends_the_check() {
    let rules = vec![glob_rule("a", "@a", "a"), glob_rule("b", "@b", "b[")];
    let error = validate_avoid_shadowing(&rules).unwrap_err();
    assert!(error.message.contains("b["));
    assert!(error.message.len() > 2);
}
