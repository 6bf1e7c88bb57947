use std::path::Path;
use gloss::error::{display_path_of, ErrorCode};
use gloss::paths::{
    gloss_candidate, gloss_path, has_extension, ignored_source, is_gloss_file, selected, sort_paths,
    source_path,
    walk_entry_allowed,
};

#[test]
fn gloss_path_of_a_top_level_file() {
    assert_eq!(gloss_path("main.rs").unwrap(), ".gloss/main.rs.gloss");
    assert_eq!(source_path(".gloss/main.rs.gloss").unwrap(), "main.rs");
}

#[test]
fn gloss_path_round_trips_for_plain_paths() {
    for source in ["a/b/c.txt", "x", "deep/er/still/file.tar.gz", "a/.hidden"] {
        let gloss = gloss_path(source).unwrap();
        assert_eq!(source_path(&gloss).unwrap(), source);
    }
}

#[test]
fn gloss_path_round_trips_component_by_component() {
    for source in ["./a//b/", "/abs/x.rs", "a/./b", "/top", "src/lib.rs/."] {
        let gloss = gloss_path(source).unwrap();
        let back = source_path(&gloss).unwrap();
        assert_eq!(Path::new(&back), Path::new(source));
        assert_eq!(gloss_path(&back).unwrap(), gloss);
    }
    assert_eq!(gloss_path("./a//b/").unwrap(), "./a/.gloss/b.gloss");
    assert_eq!(source_path("./a/.gloss/b.gloss").unwrap(), "./a/b");
    assert_eq!(gloss_path("/top").unwrap(), "/.gloss/top.gloss");
    for gloss in ["x//.gloss/y.gloss/", "/.gloss/./z.gloss"] {
        let source = source_path(gloss).unwrap();
        assert_eq!(Path::new(&gloss_path(&source).unwrap()), Path::new(gloss));
    }
}

#[test]
fn gloss_path_needs_a_file_name() {
    assert_eq!(gloss_path("a/..").unwrap_err().code, ErrorCode::InvalidFormat);
    assert_eq!(gloss_path("").unwrap_err().code, ErrorCode::InvalidFormat);
}

#[test]
fn source_path_rejects_bad_gloss_names() {
    assert_eq!(source_path("src/.gloss/foo.txt").unwrap_err().code, ErrorCode::InvalidFormat);
    assert_eq!(source_path("src/.gloss/.gloss").unwrap_err().code, ErrorCode::InvalidFormat);
    assert_eq!(source_path("foo.gloss").unwrap_err().code, ErrorCode::OrphanedGloss);
    let error = source_path("src/.annotations/baz.ex.gloss").unwrap_err();
    assert_eq!(error.file.as_deref(), Some("src/.annotations/baz.ex.gloss"));
}

#[test]
fn annotation_directories_are_ignored_sources() {
    assert!(ignored_source("src/.gloss/x.gloss"));
    assert!(ignored_source(".gloss/.ignore.gloss"));
    assert!(!ignored_source("src/gloss/x"));
    assert!(!ignored_source("src/.annotations/x.gloss"));
}

#[test]
fn selection_by_path_prefix_or_gloss() {
    let none: Vec<String> = Vec::new();
    assert!(selected("src/a.rs", &none));
    let paths = vec!["src".to_owned()];
    assert!(selected("src/a.rs", &paths));
    assert!(!selected("lib/a.rs", &paths));
    let exact = vec!["lib/a.rs".to_owned()];
    assert!(selected("lib/a.rs", &exact));
    let by_gloss = vec!["lib/.gloss/a.rs.gloss".to_owned()];
    assert!(selected("lib/a.rs", &by_gloss));
    assert!(!selected("lib/b.rs", &by_gloss));
}

#[test]
fn gloss_files_are_found_by_extension() {
    assert!(is_gloss_file("src/.gloss/a.rs.gloss"));
    assert!(!is_gloss_file("src/.gloss"));
    assert!(!is_gloss_file(".gloss"));
    assert!(!is_gloss_file("a.glossy"));
    assert!(has_extension("proj.sublime-project", "sublime-project"));
    assert!(gloss_candidate("src/.gloss/a.rs.gloss", false));
    assert!(!gloss_candidate("src/a.rs.gloss", false));
    assert!(gloss_candidate("src/a.rs.gloss", true));
    assert!(walk_entry_allowed("src"));
    assert!(!walk_entry_allowed(".git"));
    assert!(!walk_entry_allowed("target"));
}

#[test]
fn display_paths_use_forward_slashes() {
    assert_eq!(display_path_of("a\\b\\c"), "a/b/c");
}

#[test]
fn paths_sort_component_by_component_once_each() {
    let paths: Vec<String> = ["b", "a-b", "a/b", "a", "a/b"].iter().map(|p| p.to_string()).collect();
    assert_eq!(sort_paths(&paths), vec!["a", "a/b", "a-b", "b"]);
    assert!(sort_paths(&Vec::new()).is_empty());
}
