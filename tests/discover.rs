use gitjuggling::discover::{is_submodule, repositories_paths, WalkEntry, Walker};
use gitjuggling::gitmodules::GitModules;

fn dir(path: &str) -> WalkEntry {
    WalkEntry::Resolved { path: path.to_string(), gitmodules: None }
}

fn dir_with_modules(path: &str, text: &str) -> WalkEntry {
    WalkEntry::Resolved { path: path.to_string(), gitmodules: Some(text.to_string()) }
}

fn sample_walk() -> Vec<WalkEntry> {
    vec![
        dir_with_modules("/w/app", "[submodule \"lib\"]\n\tpath = lib\n\turl = u\n"),
        dir("/w/app/.git"),
        dir("/w/app/lib"),
        dir("/w/app/lib/.git"),
        dir("/w/app/tools"),
        dir("/w/app/tools/.git"),
        dir("/w/app/src"),
    ]
}

#[test]
fn declared_submodule_is_left_out_and_sibling_kept() {
    let found = repositories_paths(&sample_walk()).unwrap();
    assert_eq!(vec!["/w/app".to_string(), "/w/app/tools".to_string()], found);
}

#[test]
fn discovery_is_deterministic() {
    let a = repositories_paths(&sample_walk()).unwrap();
    let b = repositories_paths(&sample_walk()).unwrap();
    assert_eq!(a, b);
}

#[test]
fn multi_segment_declaration_matches_only_last_directory_name() {
    let entries = vec![
        dir_with_modules("/w/p", "[submodule \"v\"]\npath = vendor/lib\n"),
        dir("/w/p/vendor/lib/.git"),
    ];
    assert_eq!(vec!["/w/p/vendor/lib".to_string()], repositories_paths(&entries).unwrap());
}

#[test]
fn gone_entries_are_skipped() {
    let entries = vec![
        WalkEntry::Unresolved { not_found: true, message: "gone".to_string() },
        dir("/r/.git"),
    ];
    assert_eq!(vec!["/r".to_string()], repositories_paths(&entries).unwrap());
}

#[test]
fn unreadable_entry_stops_the_walk() {
    let entries = vec![
        dir("/r/.git"),
        WalkEntry::Unresolved { not_found: false, message: "denied".to_string() },
        dir("/s/.git"),
    ];
    assert_eq!(Err("denied".to_string()), repositories_paths(&entries));
}

#[test]
fn malformed_gitmodules_keeps_previous_declarations() {
    let entries = vec![
        dir_with_modules("/a", "[submodule \"m\"]\npath = m\n"),
        dir_with_modules("/a/x", "[submodule broken]"),
        dir("/a/m/.git"),
        dir("/a/n/.git"),
    ];
    assert_eq!(vec!["/a/n".to_string()], repositories_paths(&entries).unwrap());
}

#[test]
fn only_a_segment_named_git_marks_a_repository() {
    let entries = vec![dir("/a/foo.git"), dir("/a/.gitx"), dir("/.git"), dir("/b/.git")];
    assert_eq!(vec!["/".to_string(), "/b".to_string()], repositories_paths(&entries).unwrap());
}

#[test]
fn walker_reports_unreadable_entry_and_keeps_state() {
    let mut w = Walker::new();
    assert_eq!(Ok(()), w.visit(&dir("/x/.git")));
    let e = WalkEntry::Unresolved { not_found: false, message: "io".to_string() };
    assert_eq!(Err("io".to_string()), w.visit(&e));
    assert_eq!(vec!["/x".to_string()], w.into_paths());
}

#[test]
fn is_submodule_looks_at_holding_directory() {
    let g = GitModules::parse("[submodule \"s\"]\npath = sub\n").unwrap();
    assert!(is_submodule("/r/sub/.git", Some(&g)));
    assert!(!is_submodule("/r/other/.git", Some(&g)));
    assert!(!is_submodule("/r/sub/.git", None));
}
