use fileslug::{candidate_name, is_valid_slug, plan_rename, safe_target, Cli, RenamePlan,
    RenameResult, Resolution, Style};

/// Drive `safe_target` to completion against a simulated directory:
/// `existing` are the names present, and `same_as_source` the names that
/// denote the same on-disk file as the rename source.
fn resolve(
    target: &str,
    no_clobber: bool,
    existing: &[String],
    same_as_source: &[String],
) -> Result<String, ()> {
    let mut answers: Vec<bool> = Vec::new();
    loop {
        match safe_target(target, no_clobber, &answers) {
            Resolution::Use(name) => return Ok(name),
            Resolution::Probe(name) => {
                let exists = existing.iter().any(|e| *e == name);
                let same = same_as_source.iter().any(|s| *s == name);
                answers.push(exists && !same);
            }
            Resolution::Exhausted => return Err(()),
        }
    }
}

fn names(list: &[&str]) -> Vec<String> {
    list.iter().map(|s| s.to_string()).collect()
}

#[test]
fn test_safe_target_no_collision() {
    let result = resolve("clean-file.txt", true, &[], &[]).unwrap();
    assert_eq!(result, "clean-file.txt");
}

#[test]
fn test_safe_target_with_collision() {
    let existing = names(&["file.txt"]);
    let result = resolve("file.txt", true, &existing, &[]).unwrap();
    assert_eq!(result, "file-2.txt");
}

#[test]
fn test_safe_target_multiple_collisions() {
    let existing = names(&["file.txt", "file-2.txt", "file-3.txt"]);
    let result = resolve("file.txt", true, &existing, &[]).unwrap();
    assert_eq!(result, "file-4.txt");
}

#[test]
fn test_safe_target_compound_ext() {
    let existing = names(&["archive.tar.gz"]);
    let result = resolve("archive.tar.gz", true, &existing, &[]).unwrap();
    assert_eq!(result, "archive-2.tar.gz");
}

#[test]
fn test_safe_target_no_clobber_off() {
    let existing = names(&["file.txt"]);
    let result = resolve("file.txt", false, &existing, &[]).unwrap();
    assert_eq!(result, "file.txt");
}

#[test]
fn test_safe_target_case_insensitive_self() {
    // File.txt is being renamed to file.txt; on a case-insensitive
    // filesystem the target "exists", but it is the source itself.
    let existing = names(&["file.txt"]);
    let same = names(&["file.txt"]);
    let result = resolve("file.txt", true, &existing, &same).unwrap();
    assert_eq!(result, "file.txt");
}

#[test]
fn test_safe_target_dotfile_collision() {
    let existing = names(&[".txt"]);
    let result = resolve(".txt", true, &existing, &[]).unwrap();
    assert_eq!(result, ".txt-2");
}

#[test]
fn test_safe_target_dotfile_multiple_collisions() {
    let existing = names(&[".env", ".env-2", ".env-3"]);
    let result = resolve(".env", true, &existing, &[]).unwrap();
    assert_eq!(result, ".env-4");
}

#[test]
fn test_safe_target_overflow_protection() {
    let mut existing = vec!["file.txt".to_string()];
    for i in 2..=1001u32 {
        existing.push(format!("file-{i}.txt"));
    }
    let result = resolve("file.txt", true, &existing, &[]);
    assert!(result.is_err(), "should error after 1000 collisions");
}

#[test]
fn test_safe_target_just_under_cap() {
    let mut existing = vec!["file.txt".to_string()];
    for i in 2..=1000u32 {
        existing.push(format!("file-{i}.txt"));
    }
    let result = resolve("file.txt", true, &existing, &[]);
    assert!(result.is_ok(), "should succeed when slot 1001 is free");
    assert_eq!(result.unwrap(), "file-1001.txt");
}

#[test]
fn test_candidate_name_formats() {
    assert_eq!(candidate_name("file.txt", 2), "file-2.txt");
    assert_eq!(candidate_name("file.txt", 10), "file-10.txt");
    assert_eq!(candidate_name("file.txt", 999), "file-999.txt");
    assert_eq!(candidate_name("file.txt", 1001), "file-1001.txt");
    assert_eq!(candidate_name("archive.tar.gz", 2), "archive-2.tar.gz");
    assert_eq!(candidate_name(".env", 3), ".env-3");
    assert_eq!(candidate_name("Makefile", 2), "Makefile-2");
}

#[test]
fn test_plan_rename_same_path_skips() {
    assert_eq!(plan_rename("a.txt", "a.txt", false), RenamePlan::Skip);
    assert_eq!(plan_rename("a.txt", "a.txt", true), RenamePlan::Skip);
}

#[test]
fn test_plan_rename_case_only_uses_target() {
    assert_eq!(plan_rename("File.txt", "file.txt", true), RenamePlan::UseTarget);
}

#[test]
fn test_plan_rename_distinct_resolves() {
    assert_eq!(plan_rename("My File.txt", "my-file.txt", false), RenamePlan::Resolve);
}

#[test]
fn test_is_valid_slug() {
    assert!(is_valid_slug("a"));
    assert!(is_valid_slug("my-file.txt"));
    assert!(is_valid_slug("..."));
    assert!(!is_valid_slug(""));
    assert!(!is_valid_slug("."));
    assert!(!is_valid_slug(".."));
}

#[test]
fn test_rename_result_variants() {
    let ok = RenameResult::Renamed { from: "a".to_string(), to: "b".to_string() };
    match ok {
        RenameResult::Renamed { from, to } => {
            assert_eq!(from, "a");
            assert_eq!(to, "b");
        }
        _ => panic!("expected Renamed"),
    }
    let skipped = RenameResult::Skipped("a".to_string());
    assert!(matches!(skipped, RenameResult::Skipped(_)));
    let failed = RenameResult::Failed { path: "a".to_string(), error: "denied".to_string() };
    assert!(matches!(failed, RenameResult::Failed { .. }));
}

#[test]
fn test_cli_style_selection() {
    let base = Cli {
        execute: false,
        verbose: false,
        clobber: false,
        interactive: false,
        recursive: false,
        snake: false,
        camel: false,
        pascal: false,
        keep_unicode: false,
        pipe: false,
        raw: false,
        files: Vec::new(),
    };
    assert_eq!(base.style(), Style::Kebab);
    let snake = Cli { snake: true, ..base.clone() };
    assert_eq!(snake.style(), Style::Snake);
    let camel = Cli { camel: true, ..base.clone() };
    assert_eq!(camel.style(), Style::Camel);
    let pascal = Cli { pascal: true, ..base.clone() };
    assert_eq!(pascal.style(), Style::Pascal);
    assert_eq!(Style::default(), Style::Kebab);
}
