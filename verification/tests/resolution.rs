use parse_runner::paths::Expansion;
use parse_runner::paths::PathError;
use parse_runner::paths::collect_paths;
use parse_runner::paths::resolve_expanded;
use parse_runner::paths::resolve_specifiers;
use parse_runner::paths::split_specifier;

fn pos(paths: &[&str]) -> Expansion {
    Expansion { positive: true, paths: paths.iter().map(|p| p.to_string()).collect() }
}

fn neg(paths: &[&str]) -> Expansion {
    Expansion { positive: false, paths: paths.iter().map(|p| p.to_string()).collect() }
}

fn strings(items: &[&str]) -> Vec<String> {
    items.iter().map(|p| p.to_string()).collect()
}

#[test]
fn union_without_negations_deduplicates_by_append() {
    let resolved = resolve_expanded(&vec![pos(&["a", "b"]), pos(&["b", "c"])]).unwrap();
    assert_eq!(resolved, strings(&["a", "b", "c"]));

    // A repeated path moves to the end rather than keeping its place.
    let resolved = resolve_expanded(&vec![pos(&["a", "b"]), pos(&["a"])]).unwrap();
    assert_eq!(resolved, strings(&["b", "a"]));
}

#[test]
fn negation_removes_then_positive_reappends_at_end() {
    let resolved = resolve_expanded(&vec![pos(&["a.txt"]), neg(&["a.txt"]), pos(&["a.txt"])])
        .unwrap();
    assert_eq!(resolved, strings(&["a.txt"]));

    let resolved = resolve_expanded(&vec![pos(&["a", "b", "c"]), neg(&["b"])]).unwrap();
    assert_eq!(resolved, strings(&["a", "c"]));

    let resolved = resolve_expanded(&vec![pos(&["a", "b", "c"]), neg(&["a"]), pos(&["a"])])
        .unwrap();
    assert_eq!(resolved, strings(&["b", "c", "a"]));
}

#[test]
fn empty_resolution_is_an_error_never_an_empty_set() {
    assert!(matches!(resolve_expanded(&vec![]), Err(PathError::NoFilesMatched)));
    assert!(matches!(resolve_expanded(&vec![pos(&[])]), Err(PathError::NoFilesMatched)));
    assert!(matches!(
        resolve_expanded(&vec![pos(&["a"]), neg(&["a"])]),
        Err(PathError::NoFilesMatched)
    ));
}

#[test]
fn no_paths_at_all_is_its_own_error() {
    assert!(matches!(collect_paths(None, None), Err(PathError::NoPathsGiven)));
}

#[test]
fn literal_path_resolves_to_itself() {
    // The crate root exists where the tests run, so the specifier is a
    // literal path, not a glob.
    let resolved = collect_paths(None, Some(&strings(&["src/lib.rs"]))).unwrap();
    assert_eq!(resolved, strings(&["src/lib.rs"]));
}

#[test]
fn glob_specifier_expands_against_the_filesystem() {
    let resolved = resolve_specifiers(&strings(&["src/li*.rs"])).unwrap();
    assert_eq!(resolved, strings(&["src/lib.rs"]));
}

#[test]
fn invalid_glob_pattern_is_fatal_and_named() {
    match resolve_specifiers(&strings(&["["])) {
        Err(PathError::InvalidGlobPattern(pattern)) => assert_eq!(pattern, "["),
        other => panic!("expected an invalid-pattern error, got {:?}", other.is_ok()),
    }
}

#[test]
fn unmatched_glob_yields_no_files_matched() {
    assert!(matches!(
        resolve_specifiers(&strings(&["no_such_file_anywhere_*.zzz"])),
        Err(PathError::NoFilesMatched)
    ));
}

#[test]
fn negated_specifier_end_to_end() {
    let specifiers = strings(&["src/lib.rs", "!src/lib.rs", "src/lib.rs"]);
    let resolved = resolve_specifiers(&specifiers).unwrap();
    assert_eq!(resolved, strings(&["src/lib.rs"]));

    let specifiers = strings(&["src/li*.rs", "!src/lib.rs"]);
    assert!(matches!(resolve_specifiers(&specifiers), Err(PathError::NoFilesMatched)));
}

#[test]
fn resolution_is_idempotent_on_its_own_output() {
    let first = resolve_specifiers(&strings(&["src", "src/li*.rs"])).unwrap();
    let second = resolve_specifiers(&first).unwrap();
    assert_eq!(first, second);
}

#[test]
fn specifier_negation_markers_strip() {
    assert_eq!(split_specifier(&"a.txt".to_string()), (true, "a.txt".to_string()));
    assert_eq!(split_specifier(&"!a.txt".to_string()), (false, "a.txt".to_string()));
    assert_eq!(split_specifier(&"!!a.txt".to_string()), (false, "a.txt".to_string()));
    assert_eq!(split_specifier(&"!".to_string()), (false, "".to_string()));
}

#[test]
fn path_list_contents_are_taken_verbatim() {
    let content = "  a.txt\nb.txt\r\n\nc d.txt  \n";
    let resolved = collect_paths(Some(content), None).unwrap();
    assert_eq!(resolved, strings(&["a.txt", "b.txt", "", "c d.txt"]));
}

#[test]
fn path_list_wins_over_specifiers_and_may_be_empty() {
    let resolved = collect_paths(Some(""), Some(&strings(&["Cargo.toml"]))).unwrap();
    assert_eq!(resolved, Vec::<String>::new());

    let resolved = collect_paths(Some("one"), None).unwrap();
    assert_eq!(resolved, strings(&["one"]));
}
