use codeowners_validation::parser::CodeOwnerRule;
use codeowners_validation::validators::check_exists;
use codeowners_validation::validators::existence::{
    is_direct_rule, needs_walk, rule_statuses, skips_entry, validate_directory, visit_entry,
    walk_entries, RepoTree, RuleStatus, WalkAction, WalkEntry,
};
use codeowners_validation::validators::record::WalkRecord;
use codeowners_validation::validators::matcher::{build_globset_with_mapping, RuleMatcher};
use codeowners_validation::validators::tracker::MatchTracker;
use codeowners_validation::validators::workers::{available_thread_count, thread_count};

fn rule(pattern: &str, original: &str) -> CodeOwnerRule {
    CodeOwnerRule {
        pattern: pattern.trim_matches('/').to_string(),
        original_path: original.to_string(),
        owners: vec!["@team".to_string()],
    }
}

fn named(pattern: &str, owners: &[&str], original: &str) -> CodeOwnerRule {
    CodeOwnerRule {
        pattern: pattern.to_string(),
        owners: owners.iter().map(|owner| owner.to_string()).collect(),
        original_path: original.to_string(),
    }
}

fn entry(path: &str, is_dir: bool) -> WalkEntry {
    let name = path.rsplit('/').next().unwrap_or(path);
    WalkEntry {
        relative_path: Some(path.to_string()),
        file_name: Some(if path.is_empty() { "repo".to_string() } else { name.to_string() }),
        is_dir,
    }
}

/// The tree that holds `files` and the directories above them. A name that
/// ends with a separator is an empty directory.
fn tree(files: &[&str]) -> RepoTree {
    let mut existing: Vec<String> = Vec::new();
    let mut entries = vec![entry("", true)];
    for file in files {
        let is_dir = file.ends_with('/');
        let path = file.trim_end_matches('/');
        let parts: Vec<&str> = path.split('/').collect();
        for depth in 1..parts.len() {
            let dir = parts[..depth].join("/");
            if !existing.contains(&dir) {
                existing.push(dir.clone());
                entries.push(entry(&dir, true));
            }
        }
        if !existing.contains(&path.to_string()) {
            existing.push(path.to_string());
            entries.push(entry(path, is_dir));
        }
    }
    RepoTree { existing, entries }
}

#[test]
fn detects_missing_file() {
    let repo = tree(&[]);
    let rules = vec![rule("missing.txt", "missing.txt")];
    let result = validate_directory(&repo, &rules).unwrap();
    assert_eq!(result.len(), 1);
    assert_eq!(result[0].pattern, "missing.txt");
}

#[test]
fn passes_existing_file() {
    let repo = tree(&["exists.txt"]);
    let rules = vec![rule("exists.txt", "exists.txt")];
    let result = validate_directory(&repo, &rules).unwrap();
    assert!(result.is_empty());
}

#[test]
fn matches_wildcard_files() {
    let repo = tree(&["foo.md"]);
    let rules = vec![rule("*.md", "*.md")];
    let result = validate_directory(&repo, &rules).unwrap();
    assert!(result.is_empty());
}

#[test]
fn detects_unmatched_wildcards() {
    let repo = tree(&[]);
    let rules = vec![rule("*.xyz", "*.xyz")];
    let result = validate_directory(&repo, &rules).unwrap();
    assert_eq!(result.len(), 1);
}

#[test]
fn exists_handles_anchored_patterns() {
    let repo = tree(&["src/main.rs"]);

    // Anchored pattern should match
    let rules = vec![rule("src/main.rs", "/src/main.rs")];
    let result = validate_directory(&repo, &rules).unwrap();
    assert!(result.is_empty());

    // Non-anchored pattern should also match
    let rules = vec![rule("main.rs", "main.rs")];
    let result = validate_directory(&repo, &rules).unwrap();
    assert!(result.is_empty());
}

#[test]
fn handles_directory_patterns() {
    let repo = tree(&["docs/README.md"]);

    // Directory pattern should match
    let rules = vec![rule("docs", "docs/")];
    let result = validate_directory(&repo, &rules).unwrap();
    assert!(result.is_empty());

    // Anchored directory pattern
    let rules = vec![rule("docs", "/docs/")];
    let result = validate_directory(&repo, &rules).unwrap();
    assert!(result.is_empty());
}

#[test]
fn handles_nested_patterns() {
    let repo = tree(&["a/b/c/file.txt"]);

    // Non-anchored should match anywhere
    let rules = vec![rule("file.txt", "file.txt")];
    let result = validate_directory(&repo, &rules).unwrap();
    assert!(result.is_empty());

    // Anchored should not match nested file
    let rules = vec![rule("file.txt", "/file.txt")];
    let result = validate_directory(&repo, &rules).unwrap();
    assert_eq!(result.len(), 1);
}

#[test]
fn handles_complex_wildcards() {
    let repo = tree(&["src/main.test.js"]);

    // Complex wildcard pattern
    let rules = vec![rule("**/*.test.js", "**/*.test.js")];
    let result = validate_directory(&repo, &rules).unwrap();
    assert!(result.is_empty());
}

fn create_rules() -> Vec<CodeOwnerRule> {
    vec![
        named("*.rs", &["rust-team"], "*.rs"),
        named("examples/*", &["examples-team"], "examples/*"),
        named("config.rs", &["config-team"], "config.rs"),
        named("src/**/main.rs", &["main-team"], "src/**/main.rs"),
        named("src/**/modules/api", &["api-team"], "src/**/modules/api/"),
        named("src/**/utils/*.rs", &["utils-team-1", "utils-team-2"], "src/**/utils/*.rs"),
        named("tests/**/integration", &["integration-team"], "tests/**/integration/"),
        named("examples*", &["examples-team"], "examples*/"),
    ]
}

fn assert_results(result: &[check_exists::ValidationResult], expected_matches: &[bool]) {
    assert_eq!(result.len(), 8);
    let find = |text: &str| result.iter().find(|one| one.original_path == text).unwrap();
    assert_eq!(find("*.rs").matched, expected_matches[0]);
    assert_eq!(find("examples/*").matched, expected_matches[1]);
    assert_eq!(find("config.rs").matched, expected_matches[2]);
    assert_eq!(find("src/**/main.rs").matched, expected_matches[3]);
    assert_eq!(find("src/**/modules/api/").matched, expected_matches[4]);
    assert_eq!(find("src/**/utils/*.rs").matched, expected_matches[5]);
    assert_eq!(find("tests/**/integration/").matched, expected_matches[6]);
    assert_eq!(find("examples*/").matched, expected_matches[7]);
}

#[test]
fn test_check_file_exists_happy_path() {
    let repo = tree(&[
        "file.rs",
        "examples/example1.txt",
        "examples/example2.txt",
        "config.rs",
        "src/main/main.rs",
        "src/modules/api/api.rs",
        "src/utils/util1.rs",
        "src/utils/util2.rs",
        "tests/integration/test1.rs",
        "tests/integration/test2.rs",
        "examples1/example1.txt",
        "examples2/example2.txt",
    ]);
    let rules = create_rules();

    let result = check_exists::validate_directory(&repo, &rules).unwrap();

    assert_results(&result, &[true, true, true, true, true, true, true, true]);
}

#[test]
fn test_check_file_exists_unhappy_path() {
    let repo = tree(&[
        "file.txt",
        "examples/example1.txt",
        "examples/example2.txt",
        "src/main/main.txt",
        "src/modules/api/api.txt",
        "src/utils/util1.txt",
        "src/utils/util2.txt",
        "tests/unit/test1.txt",
        "tests/unit/test2.txt",
        "examples1/example1.txt",
    ]);
    let rules = create_rules();

    let result = check_exists::validate_directory(&repo, &rules).unwrap();

    assert_results(
        &result,
        &[false, true, false, false, true, false, false, true],
    );
}

#[test]
fn results_come_rule_by_rule() {
    let repo = tree(&["a.md"]);
    let rules = vec![
        named("*.md", &["@docs", "@all"], "*.md"),
        named("x[", &[], "x["),
        named("gone", &["@none"], "/gone/"),
    ];
    let result = check_exists::validate_directory(&repo, &rules).unwrap();
    assert_eq!(result.len(), 3);
    assert!(result[0].matched);
    assert_eq!(result[0].owners, vec!["@docs", "@all"]);
    assert_eq!(result[0].original_path, "*.md");
    assert!(!result[1].matched);
    assert!(result[1].owners.is_empty());
    assert_eq!(result[1].original_path, "x[");
    assert!(!result[2].matched);
    assert_eq!(result[2].owners, vec!["@none"]);
    assert_eq!(result[2].original_path, "/gone/");
}

#[test]
fn reports_the_missing_directory_rule() {
    let repo = tree(&["src/main.rs", "README.md"]);
    let rules = vec![rule("src/main.rs", "src/main.rs"), rule("*.md", "*.md"), rule("docs", "/docs/")];
    let missing = validate_directory(&repo, &rules).unwrap();
    assert_eq!(missing.len(), 1);
    assert_eq!(missing[0].original_path, "/docs/");
    assert_eq!(missing[0].pattern, "docs");
    assert_eq!(missing[0].owners, vec!["@team"]);
    assert_eq!(
        rule_statuses(&repo, &rules).unwrap(),
        vec![RuleStatus::Matched, RuleStatus::Matched, RuleStatus::Missing]
    );
}

#[test]
fn anchored_rule_needs_the_path_from_the_root() {
    let repo = tree(&["nested/README.md", "deep/er/docs/x.txt"]);
    let rules = vec![
        rule("README.md", "/README.md"),
        rule("README.md", "README.md"),
        rule("docs", "/docs/"),
        rule("docs", "docs/"),
        rule("nested/*.md", "/nested/*.md"),
        rule("README.*", "/README.*"),
    ];
    assert_eq!(
        rule_statuses(&repo, &rules).unwrap(),
        vec![
            RuleStatus::Missing,
            RuleStatus::Matched,
            RuleStatus::Missing,
            RuleStatus::Matched,
            RuleStatus::Matched,
            RuleStatus::Missing,
        ]
    );
}

#[test]
fn directory_rule_takes_the_directory_or_what_is_beneath_it() {
    let rules = vec![rule("build*", "build*/"), rule("out?", "/out?/")];
    let only_dir = RepoTree { existing: vec![], entries: vec![entry("a/build1", true), entry("out1", true)] };
    assert_eq!(
        rule_statuses(&only_dir, &rules).unwrap(),
        vec![RuleStatus::Matched, RuleStatus::Matched]
    );
    let only_beneath = RepoTree {
        existing: vec![],
        entries: vec![entry("a/build1/x/y.o", false), entry("out1/z", false)],
    };
    assert_eq!(
        rule_statuses(&only_beneath, &rules).unwrap(),
        vec![RuleStatus::Matched, RuleStatus::Matched]
    );
    let elsewhere = RepoTree {
        existing: vec![],
        entries: vec![entry("a/rebuild", true), entry("b/out1", true), entry("outer", false)],
    };
    assert_eq!(
        rule_statuses(&elsewhere, &rules).unwrap(),
        vec![RuleStatus::Missing, RuleStatus::Missing]
    );
}

#[test]
fn direct_rule_goes_by_the_lookup_alone() {
    let rules = vec![rule("src/lib.rs", "/src/lib.rs")];
    assert!(is_direct_rule(&rules[0]));
    let walked_only = RepoTree { existing: vec![], entries: vec![entry("src/lib.rs", false)] };
    assert_eq!(rule_statuses(&walked_only, &rules).unwrap(), vec![RuleStatus::Missing]);
    let looked_up = RepoTree { existing: vec!["src/lib.rs".to_string()], entries: vec![] };
    assert_eq!(rule_statuses(&looked_up, &rules).unwrap(), vec![RuleStatus::Matched]);
    assert!(validate_directory(&looked_up, &rules).unwrap().is_empty());
}

#[test]
fn tells_direct_rules_from_walked_ones() {
    assert!(is_direct_rule(&rule("a/b", "/a/b")));
    assert!(is_direct_rule(&rule("a/b", "/a/b/")));
    assert!(!is_direct_rule(&rule("a/b", "a/b")));
    assert!(!is_direct_rule(&rule("a/*", "/a/*")));
    assert!(!is_direct_rule(&rule("a?", "/a?")));
    assert!(!is_direct_rule(&rule("a[b", "/a[b")));
    assert!(is_direct_rule(&rule("a]b", "/a]b")));
    assert!(is_direct_rule(&rule("a{b", "/a{b")));
    assert!(!is_direct_rule(&rule("", "")));
}

#[test]
fn malformed_rule_is_reported_and_keeps_no_other_from_being_checked() {
    let repo = tree(&["a.md", "src/x.rs"]);
    let rules = vec![
        rule("*.md", "*.md"),
        rule("src/[", "src/["),
        rule("*.rs", "*.rs"),
        rule("x[", "/x[/"),
        rule("*.java", "*.java"),
    ];
    assert_eq!(
        rule_statuses(&repo, &rules).unwrap(),
        vec![
            RuleStatus::Matched,
            RuleStatus::Uncompilable,
            RuleStatus::Matched,
            RuleStatus::Uncompilable,
            RuleStatus::Missing,
        ]
    );
    let missing = validate_directory(&repo, &rules).unwrap();
    let texts: Vec<&str> = missing.iter().map(|rule| rule.original_path.as_str()).collect();
    assert_eq!(texts, vec!["src/[", "/x[/", "*.java"]);
}

#[test]
fn missing_direct_rules_come_first() {
    let repo = tree(&["kept.txt"]);
    let rules = vec![
        rule("*.none", "*.none"),
        rule("gone", "/gone"),
        rule("kept.txt", "/kept.txt"),
        rule("nowhere", "nowhere/"),
        rule("lost/too", "/lost/too/"),
    ];
    let missing = validate_directory(&repo, &rules).unwrap();
    let texts: Vec<&str> = missing.iter().map(|rule| rule.original_path.as_str()).collect();
    assert_eq!(texts, vec!["/gone", "/lost/too/", "*.none", "nowhere/"]);
}

#[test]
fn metadata_directories_are_neither_entered_nor_matched() {
    let git = WalkEntry {
        relative_path: Some(".git".to_string()),
        file_name: Some(".git".to_string()),
        is_dir: true,
    };
    let git_file = WalkEntry {
        relative_path: Some("sub/.git".to_string()),
        file_name: Some(".git".to_string()),
        is_dir: false,
    };
    assert!(skips_entry(&git));
    assert!(!skips_entry(&git_file));
    assert!(skips_entry(&entry(".git/config", false)));
    assert!(skips_entry(&entry("sub/.git/objects/ab", true)));
    assert!(skips_entry(&entry("a/.git/b/.git", false)));
    assert!(!skips_entry(&entry("a.git/config", false)));
    assert!(!skips_entry(&entry(".gitignore/x", false)));
    assert!(!skips_entry(&entry("x.git/y", false)));
    assert!(!skips_entry(&entry("a/.git", false)));
    assert!(!skips_entry(&entry(".github", true)));
    assert!(!skips_entry(&entry("git", true)));
    assert!(!skips_entry(&WalkEntry { relative_path: None, file_name: None, is_dir: true }));

    let rules = vec![rule(".git", ".git")];
    let dir_only = RepoTree { existing: vec![], entries: vec![entry("", true), git] };
    assert_eq!(rule_statuses(&dir_only, &rules).unwrap(), vec![RuleStatus::Missing]);
    let with_file = RepoTree { existing: vec![], entries: vec![entry("", true), git_file] };
    assert_eq!(rule_statuses(&with_file, &rules).unwrap(), vec![RuleStatus::Matched]);
}

#[test]
fn what_lies_beneath_a_metadata_directory_counts_for_nothing() {
    let rules = vec![rule("config", "config"), rule("*.pack", "*.pack"), rule("hooks", "hooks/")];
    let beneath = RepoTree {
        existing: vec![],
        entries: vec![
            entry("", true),
            entry(".git/config", false),
            entry(".git/objects/pack/a.pack", false),
            entry("sub/.git/hooks", true),
            entry("sub/.git/hooks/pre-commit", false),
        ],
    };
    assert_eq!(
        rule_statuses(&beneath, &rules).unwrap(),
        vec![RuleStatus::Missing, RuleStatus::Missing, RuleStatus::Missing]
    );
    let beside = RepoTree {
        existing: vec![],
        entries: vec![entry("x.git/config", false), entry("a.pack", false), entry("git/hooks/x", false)],
    };
    assert_eq!(
        rule_statuses(&beside, &rules).unwrap(),
        vec![RuleStatus::Matched, RuleStatus::Matched, RuleStatus::Matched]
    );

    let first = rule("config", "config");
    let matcher = RuleMatcher::build(&[&first]).unwrap();
    let mut tracker = MatchTracker::new(1);
    assert_eq!(visit_entry(&matcher, &mut tracker, &entry(".git/config", false)), WalkAction::Skip);
    assert_eq!(tracker.remaining(), 1);
}

#[test]
fn lookup_that_leaves_the_root_counts_for_nothing() {
    let rules = vec![
        rule("../outside", "/../outside"),
        rule("a/../../b", "/a/../../b"),
        rule("..", "/../"),
        CodeOwnerRule {
            pattern: "/etc/passwd".to_string(),
            owners: vec![],
            original_path: "//etc/passwd".to_string(),
        },
        rule("a/..b/c..", "/a/..b/c.."),
    ];
    let repo = RepoTree {
        existing: rules.iter().map(|rule| rule.pattern.clone()).collect(),
        entries: vec![],
    };
    assert_eq!(
        rule_statuses(&repo, &rules).unwrap(),
        vec![
            RuleStatus::Missing,
            RuleStatus::Missing,
            RuleStatus::Missing,
            RuleStatus::Missing,
            RuleStatus::Matched,
        ]
    );
    let missing = validate_directory(&repo, &rules).unwrap();
    assert_eq!(missing.len(), 4);
}

#[test]
fn entry_outside_the_root_matches_nothing() {
    let rules = vec![rule("*", "*")];
    let outside = WalkEntry { relative_path: None, file_name: Some("x".to_string()), is_dir: false };
    let repo = RepoTree { existing: vec![], entries: vec![outside] };
    assert_eq!(rule_statuses(&repo, &rules).unwrap(), vec![RuleStatus::Missing]);
}

#[test]
fn order_of_entries_does_not_matter() {
    let rules = vec![
        rule("*.md", "*.md"),
        rule("src", "src/"),
        rule("lib.rs", "lib.rs"),
        rule("*.toml", "*.toml"),
        rule("docs/*.txt", "/docs/*.txt"),
    ];
    let mut repo = tree(&["README.md", "src/lib.rs", "src/bin/main.rs", "docs/a.txt"]);
    let expected = vec![
        RuleStatus::Matched,
        RuleStatus::Matched,
        RuleStatus::Matched,
        RuleStatus::Missing,
        RuleStatus::Matched,
    ];
    let count = repo.entries.len();
    for turn in 0..count {
        repo.entries.rotate_left(1);
        assert_eq!(rule_statuses(&repo, &rules).unwrap(), expected, "rotation {}", turn);
    }
    repo.entries.reverse();
    repo.existing.reverse();
    assert_eq!(rule_statuses(&repo, &rules).unwrap(), expected);
}

#[test]
fn walk_ends_once_every_rule_is_matched() {
    let first = rule("*.md", "*.md");
    let second = rule("src", "src/");
    let walked = vec![&first, &second];
    let matcher = RuleMatcher::build(&walked).unwrap();
    assert_eq!(matcher.rule_count(), 2);
    let mut tracker = MatchTracker::new(2);
    assert_eq!(tracker.remaining(), 2);

    assert_eq!(visit_entry(&matcher, &mut tracker, &entry("", true)), WalkAction::Continue);
    assert_eq!(tracker.remaining(), 2);
    assert_eq!(visit_entry(&matcher, &mut tracker, &entry(".git", true)), WalkAction::Skip);
    assert_eq!(visit_entry(&matcher, &mut tracker, &entry("a.md", false)), WalkAction::Continue);
    assert!(tracker.is_matched(0));
    assert!(!tracker.is_matched(1));
    assert_eq!(tracker.remaining(), 1);
    assert_eq!(visit_entry(&matcher, &mut tracker, &entry("b.md", false)), WalkAction::Continue);
    assert_eq!(tracker.remaining(), 1);
    assert_eq!(visit_entry(&matcher, &mut tracker, &entry("x/src/y.rs", false)), WalkAction::Continue);
    assert!(tracker.is_matched(1));
    assert_eq!(tracker.remaining(), 0);
    assert!(tracker.is_complete());
    assert_eq!(visit_entry(&matcher, &mut tracker, &entry("c.md", false)), WalkAction::Quit);
    assert_eq!(visit_entry(&matcher, &mut tracker, &entry(".git", true)), WalkAction::Skip);
    assert_eq!(tracker.remaining(), 0);
}

#[test]
fn early_end_gives_the_same_partition_as_a_full_walk() {
    let first = rule("*.md", "*.md");
    let second = rule("*.rs", "*.rs");
    let third = rule("*.none", "*.none");
    let entries = vec![entry("a.md", false), entry("b.rs", false), entry("c.md", false), entry("d.rs", false)];

    let both = vec![&first, &second];
    let matcher = RuleMatcher::build(&both).unwrap();
    let mut tracker = MatchTracker::new(2);
    walk_entries(&matcher, &mut tracker, &entries);
    assert!(tracker.is_matched(0) && tracker.is_matched(1));

    let all = vec![&first, &second, &third];
    let matcher = RuleMatcher::build(&all).unwrap();
    let mut tracker = MatchTracker::new(3);
    walk_entries(&matcher, &mut tracker, &entries);
    assert!(tracker.is_matched(0) && tracker.is_matched(1) && !tracker.is_matched(2));
    assert_eq!(tracker.remaining(), 1);
}

#[test]
fn recording_twice_changes_nothing() {
    let mut tracker = MatchTracker::new(3);
    assert_eq!(tracker.len(), 3);
    assert!(!tracker.is_complete());
    tracker.record(1);
    assert_eq!(tracker.remaining(), 2);
    tracker.record(1);
    tracker.record(1);
    assert_eq!(tracker.remaining(), 2);
    assert!(tracker.is_matched(1));
    assert!(!tracker.is_matched(0));
    tracker.record(0);
    tracker.record(2);
    assert_eq!(tracker.remaining(), 0);
    assert!(tracker.is_complete());
    let none = MatchTracker::new(0);
    assert!(none.is_complete());
    assert_eq!(none.len(), 0);
}

#[test]
fn matcher_leads_from_each_glob_back_to_its_rule() {
    let dir = rule("docs", "docs/");
    let plain = rule("x", "x");
    let file = rule("*.md", "*.md");
    let anchored = rule("docs/*.md", "/docs/*.md");
    let walked = vec![&dir, &plain, &file, &anchored];
    let (set, owners) = build_globset_with_mapping(&walked).unwrap();
    assert_eq!(set.len(), 5);
    assert_eq!(owners.len(), 5);
    assert_eq!(owners[&0], 0);
    assert_eq!(owners[&1], 0);
    assert_eq!(owners[&2], 1);
    assert_eq!(owners[&3], 2);
    assert_eq!(owners[&4], 3);
    assert_eq!(set.matches("docs"), vec![0]);
    assert_eq!(set.matches("a/docs/b"), vec![1]);
    assert_eq!(set.matches("docs/a.md"), vec![1, 3, 4]);

    let matcher = RuleMatcher::build(&walked).unwrap();
    assert_eq!(matcher.rule_count(), 4);
    assert_eq!(matcher.matched_rules("docs/a.md"), vec![0, 2, 3]);
    assert_eq!(matcher.matched_rules("a/docs/b/docs"), vec![0]);
    assert!(matcher.matched_rules("y").is_empty());
    assert_eq!(matcher.matched_rules("sub/docs"), vec![0]);
    assert_eq!(matcher.matched_rules("sub/x"), vec![1]);
}

#[test]
fn malformed_rule_fails_the_build() {
    let bad = CodeOwnerRule {
        pattern: "docs/[".to_string(),
        owners: vec![],
        original_path: "docs/[".to_string(),
    };
    let alone = vec![&bad];
    let error = build_globset_with_mapping(&alone).unwrap_err();
    assert!(error.message.contains("docs/["));
    assert!(RuleMatcher::build(&alone).is_err());

    let good = rule("*.md", "*.md");
    let second_is_bad = rule("x[", "/x[/");
    for list in [vec![&good, &bad], vec![&bad, &good], vec![&good, &second_is_bad, &good]] {
        assert!(build_globset_with_mapping(&list).is_err());
        assert!(RuleMatcher::build(&list).is_err());
    }
    let none: Vec<&CodeOwnerRule> = Vec::new();
    assert!(build_globset_with_mapping(&none).is_ok());
}

#[test]
fn pattern_is_valid_exactly_where_its_rule_builds() {
    let texts = [
        ("docs/[", "docs/["),
        ("docs", "/docs/"),
        ("docs", "docs/"),
        ("*.rs", "*.rs"),
        ("a{b", "a{b"),
        ("a{b", "/a{b/"),
        ("[z-a]", "[z-a]"),
        ("x", "/x"),
        ("a]b", "a]b"),
        ("{a,b}", "{a,b}/"),
    ];
    for (pattern, original) in texts {
        let one = CodeOwnerRule {
            pattern: pattern.to_string(),
            owners: vec![],
            original_path: original.to_string(),
        };
        let valid = codeowners_validation::parser::validate_pattern(pattern, original).is_ok();
        assert_eq!(build_globset_with_mapping(&[&one]).is_ok(), valid, "{:?}", original);
    }
    assert_eq!(
        codeowners_validation::parser::validate_pattern("docs/[", "docs/["),
        Err("invalid pattern")
    );
}

#[test]
fn no_rules_no_failures() {
    let repo = tree(&["a"]);
    let rules: Vec<CodeOwnerRule> = Vec::new();
    assert!(validate_directory(&repo, &rules).unwrap().is_empty());
    assert!(rule_statuses(&repo, &rules).unwrap().is_empty());
}

#[test]
fn worker_count_goes_by_the_number_of_rules() {
    assert_eq!(thread_count(0, 16), 2);
    assert_eq!(thread_count(1000, 16), 2);
    assert_eq!(thread_count(1000, 1), 2);
    assert_eq!(thread_count(1001, 16), 4);
    assert_eq!(thread_count(1001, 3), 3);
    assert_eq!(thread_count(5000, 4), 4);
    assert_eq!(thread_count(5001, 16), 8);
    assert_eq!(thread_count(5001, 8), 8);
    assert_eq!(thread_count(20000, 6), 6);
    assert_eq!(thread_count(20000, 1), 1);
}

#[test]
fn worker_count_on_this_machine_is_bounded() {
    assert_eq!(available_thread_count(10), 2);
    let some = available_thread_count(2000);
    assert!((1..=4).contains(&some));
    let many = available_thread_count(10000);
    assert!((1..=8).contains(&many));
    assert!(some <= many);
}

#[test]
fn combined_matcher_agrees_with_each_glob_alone() {
    let texts = [
        ("*.rs", "*.rs"),
        ("docs", "docs/"),
        ("docs", "/docs/"),
        ("src/**/main.rs", "src/**/main.rs"),
        ("Makefile", "Makefile"),
        ("a?c", "/a?c"),
        ("[ab]*", "[ab]*/"),
        ("src/lib.rs", "src/lib.rs"),
        ("**/*.test.js", "**/*.test.js"),
        ("*", "*"),
    ];
    let paths = [
        "", "docs", "docs/a", "a/docs", "a/docs/b/c", "main.rs", "src/main.rs", "src/a/b/main.rs",
        "Makefile", "sub/Makefile", "abc", "x/abc", "abc/x", "a", "b/x", "src/lib.rs", "x/src/lib.rs",
        "t.test.js", "x/y/t.test.js", "nothing", "x[",
    ];
    let rules: Vec<CodeOwnerRule> = texts.iter().map(|(pattern, text)| rule(pattern, text)).collect();
    let walked: Vec<&CodeOwnerRule> = rules.iter().collect();
    let matcher = RuleMatcher::build(&walked).unwrap();
    for path in paths {
        let together = matcher.matched_rules(path);
        for (index, one) in rules.iter().enumerate() {
            let globs = codeowners_validation::pattern::compile_primitives(&one.pattern, &one.original_path);
            let compiled: Vec<globset::Glob> =
                globs.iter().filter_map(|text| globset::Glob::new(text).ok()).collect();
            let alone = compiled.len() == globs.len()
                && compiled.iter().any(|glob| glob.compile_matcher().is_match(path));
            assert_eq!(together.contains(&index), alone, "rule {:?} on {:?}", one.original_path, path);

            let single = vec![one];
            let by_itself = RuleMatcher::build(&single).unwrap().matched_rules(path);
            assert_eq!(!by_itself.is_empty(), alone, "rule {:?} alone on {:?}", one.original_path, path);
        }
    }
}

#[test]
fn set_that_the_glob_engine_refuses_ends_the_check() {
    let huge = format!("*{}", "[a-z]".repeat(400_000));
    let rules = vec![rule("*.md", "*.md"), rule(&huge, &huge)];
    let repo = tree(&["a.md"]);
    let error = rule_statuses(&repo, &rules).unwrap_err();
    assert!(!error.message.is_empty());
    assert!(validate_directory(&repo, &rules).is_err());
    assert!(check_exists::validate_directory(&repo, &rules).is_err());
    let walked: Vec<&CodeOwnerRule> = rules.iter().collect();
    assert!(build_globset_with_mapping(&walked).is_err());
    assert!(RuleMatcher::build(&walked).is_err());

    // The glob parses, so the pattern is valid; it is the set that is refused.
    assert!(codeowners_validation::parser::validate_pattern(&huge, &huge).is_ok());
    assert!(build_globset_with_mapping(&[&rules[1]]).is_err());

    // A rule that is looked up directly needs no set.
    let direct = vec![rule("a.md", "/a.md")];
    assert!(validate_directory(&repo, &direct).is_ok());
}

#[test]
fn record_ends_the_walk_early_and_keeps_what_matters() {
    let rules = vec![
        rule("*.md", "*.md"),
        rule("looked/up", "/looked/up"),
        rule("src", "src/"),
        rule("x[", "x["),
    ];
    assert!(needs_walk(&rules));
    let mut record = WalkRecord::start(&rules).unwrap();
    // The rule that is looked up and the malformed one take no part.
    assert_eq!(record.rule_count(), 2);
    let delivered = vec![
        entry("", true),
        entry(".git", true),
        entry("a.md", false),
        entry("b.md", false),
        entry("looked/up", false),
        entry("x/src/y.rs", false),
        entry("c.md", false),
    ];
    let mut actions = Vec::new();
    for one in &delivered {
        actions.push(record.visit(entry(one.relative_path.as_deref().unwrap(), one.is_dir)));
    }
    assert_eq!(
        actions,
        vec![
            WalkAction::Continue,
            WalkAction::Skip,
            WalkAction::Continue,
            WalkAction::Continue,
            WalkAction::Continue,
            WalkAction::Continue,
            WalkAction::Quit,
        ]
    );
    let kept = record.into_entries();
    let paths: Vec<&str> = kept.iter().map(|one| one.relative_path.as_deref().unwrap()).collect();
    assert_eq!(paths, vec!["a.md", "x/src/y.rs"]);

    let existing = vec!["looked/up".to_string()];
    let with_kept = RepoTree { existing: existing.clone(), entries: kept };
    let with_all = RepoTree { existing, entries: delivered };
    let expected = vec![
        RuleStatus::Matched,
        RuleStatus::Matched,
        RuleStatus::Matched,
        RuleStatus::Uncompilable,
    ];
    assert_eq!(rule_statuses(&with_kept, &rules).unwrap(), expected);
    assert_eq!(rule_statuses(&with_all, &rules).unwrap(), expected);
}

#[test]
fn record_of_a_walk_that_finds_nothing_keeps_nothing() {
    let rules = vec![rule("*.none", "*.none"), rule("*.md", "*.md")];
    let mut record = WalkRecord::start(&rules).unwrap();
    for path in ["", "a.txt", "b/c.rs"] {
        assert_eq!(record.visit(entry(path, false)), WalkAction::Continue);
    }
    assert_eq!(record.visit(entry("d.md", false)), WalkAction::Continue);
    assert_eq!(record.visit(entry("e.md", false)), WalkAction::Continue);
    let kept = record.into_entries();
    assert_eq!(kept.len(), 1);
    assert_eq!(kept[0].relative_path.as_deref(), Some("d.md"));
}

#[test]
fn walk_is_needed_only_for_rules_that_are_not_looked_up() {
    assert!(!needs_walk(&[]));
    assert!(!needs_walk(&[rule("a", "/a"), rule("b/c", "/b/c/")]));
    assert!(needs_walk(&[rule("a", "/a"), rule("b", "b")]));
    assert!(needs_walk(&[rule("a*", "/a*")]));
    assert!(needs_walk(&[rule("x[", "x[")]));
}

#[test]
fn record_cannot_start_where_the_set_is_refused() {
    let huge = format!("*{}", "[a-z]".repeat(400_000));
    let rules = vec![rule("*.md", "*.md"), rule(&huge, &huge)];
    assert!(WalkRecord::start(&rules).is_err());
}
