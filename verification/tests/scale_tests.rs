use codeowners_validation::parser::parse_codeowners;
use codeowners_validation::validators::duplicate_patterns::validate_duplicates;
use codeowners_validation::validators::existence::{validate_directory, RepoTree, WalkEntry};

fn file(path: String) -> WalkEntry {
    WalkEntry {
        file_name: path.rsplit('/').next().map(|name| name.to_string()),
        relative_path: Some(path),
        is_dir: false,
    }
}

#[test]
fn ten_thousand_rules_are_checked_in_one_pass() {
    let mut content = String::new();
    for i in 0..10_000 {
        let line = match i % 10 {
            0..=3 => format!("/src/components/feature{}/index.ts @team{} @team{}\n", i, i % 20, (i + 7) % 20),
            4..=6 => format!("/packages/module{}/ @org/team-{} @user{}\n", i, i % 15, i % 30),
            7..=8 => format!("**/pattern{}.* @team{} @team{}\n", i, i % 10, (i + 3) % 10),
            _ => format!("*.ext{} @generic-owner-{}\n", i % 100, i % 50),
        };
        content.push_str(&line);
    }
    let (rules, invalid) = parse_codeowners(&content);
    assert_eq!(rules.len(), 10_000);
    assert!(invalid.is_empty());
    assert_eq!(rules[4].pattern, "packages/module4");
    assert_eq!(rules[4].owners, vec!["@org/team-4", "@user4"]);

    let mut repo = RepoTree { existing: Vec::new(), entries: Vec::new() };
    for i in 0..100 {
        repo.entries.push(file(format!("test{}.txt", i)));
    }
    repo.entries.push(file("deep/down/pattern7.rs".to_string()));
    repo.entries.push(file("x.ext9".to_string()));
    repo.existing.push("src/components/feature0/index.ts".to_string());
    repo.existing.push("packages/module4".to_string());

    let missing = validate_directory(&repo, &rules).unwrap();
    // One file and one directory that are looked up, `**/pattern7.*`, and the
    // hundred rules `*.ext9` are satisfied.
    assert_eq!(missing.len(), 10_000 - 103);
    assert_eq!(missing[0].original_path, "/src/components/feature1/index.ts");

    // `*.ext9`, `*.ext19` and so on to `*.ext99` are each written a hundred times.
    let duplicates = validate_duplicates(&rules);
    assert_eq!(duplicates.len(), 1_000 - 10);
}
