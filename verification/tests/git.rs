use gloss::error::ErrorCode;
use gloss::git::{
    break_count_of, config_value, diff_args, diff_hunks_between, git_failure, history_failure,
    hunks_fit, hunks_from_diff_output, is_porcelain_ascii, lifecycle_changes_of, object_name,
    output_text, parse_hunks, parse_name_status, porcelain_paths, ChangeScope, DiffHunk, GitRepo,
    LifecycleChange,
};

#[test]
fn parses_zero_context_hunks() {
    let diff = "@@ -4,2 +4,3 @@\n@@ -20 +21,0 @@\n";
    assert_eq!(
        parse_hunks(diff),
        vec![
            DiffHunk {
                old_start: 4,
                old_count: 2,
                new_start: 4,
                new_count: 3
            },
            DiffHunk {
                old_start: 20,
                old_count: 1,
                new_start: 21,
                new_count: 0
            },
        ]
    );
}


#[test]
fn parses_hunk_headers_with_trailing_context() {
    let diff = "diff --git a/x b/x\n@@ -1 +1 @@ fn main\n-old\n+new\n@@ -0,0 +2,2 @@\n";
    assert_eq!(
        parse_hunks(diff),
        vec![
            DiffHunk { old_start: 1, old_count: 1, new_start: 1, new_count: 1 },
            DiffHunk { old_start: 0, old_count: 0, new_start: 2, new_count: 2 },
        ]
    );
    assert!(parse_hunks("@@ -x +1 @@\n").is_empty());
}

#[test]
fn line_diff_hunks_between_texts() {
    let hunks = diff_hunks_between("a\nb\nc\n", "a\nB\nc\nd\n");
    assert_eq!(
        hunks,
        vec![
            DiffHunk { old_start: 2, old_count: 1, new_start: 2, new_count: 1 },
            DiffHunk { old_start: 4, old_count: 0, new_start: 4, new_count: 1 },
        ]
    );
    assert!(diff_hunks_between("same\n", "same\n").is_empty());
}

#[test]
fn name_status_lists_new_paths() {
    let bytes = b"M\0src/a.rs\0R100\0old.rs\0new.rs\0A\0b.rs\0";
    assert_eq!(parse_name_status(bytes), vec!["src/a.rs", "new.rs", "b.rs"]);
}

#[test]
fn porcelain_paths_skip_rename_sources() {
    let bytes = b" M src/a.rs\0R  new.rs\0old.rs\0?? untracked.txt\0 D gone.rs\0";
    assert!(is_porcelain_ascii(bytes));
    assert_eq!(
        porcelain_paths(bytes),
        vec!["src/a.rs", "new.rs", "untracked.txt", "gone.rs"]
    );
    let changes = lifecycle_changes_of(bytes);
    assert_eq!(changes.len(), 2);
    match &changes[0] {
        LifecycleChange::Rename { from, to } => {
            assert_eq!(from, "old.rs");
            assert_eq!(to, "new.rs");
        }
        other => panic!("unexpected {other:?}"),
    }
    match &changes[1] {
        LifecycleChange::Delete { path } => assert_eq!(path, "gone.rs"),
        other => panic!("unexpected {other:?}"),
    }
    assert!(!is_porcelain_ascii("\u{e9}M x\0".as_bytes()));
}

#[test]
fn git_failures_report_standard_error() {
    let error = git_failure(b"  fatal: not a git repository\n");
    assert_eq!(error.code, ErrorCode::GitError);
    assert_eq!(error.message, "fatal: not a git repository");
    assert_eq!(git_failure(b"  \n").message, "Git command failed");
    assert_eq!(history_failure(b"  \n").message, "");
    let ok = hunks_from_diff_output(false, Some(1), b"@@ -1 +1 @@\n", b"").unwrap();
    assert_eq!(ok.len(), 1);
    let failed = hunks_from_diff_output(false, Some(128), b"", b"bad revision").unwrap_err();
    assert_eq!(failed.message, "bad revision");
}

#[test]
fn diff_arguments_follow_the_scope() {
    assert_eq!(
        diff_args(&ChangeScope::WorkingTree, true, true, "/repo", "a.rs"),
        vec!["diff", "--unified=0", "HEAD", "--", "a.rs"]
    );
    assert_eq!(
        diff_args(&ChangeScope::WorkingTree, true, false, "/repo", "a.rs"),
        vec!["diff", "--no-index", "--unified=0", "--", "/dev/null", "/repo/a.rs"]
    );
    assert_eq!(
        diff_args(&ChangeScope::Staged, true, true, "/repo", "a.rs"),
        vec!["diff", "--cached", "--unified=0", "--", "a.rs"]
    );
    assert_eq!(
        diff_args(&ChangeScope::Base("main".to_owned()), true, true, "/repo", "a.rs"),
        vec!["diff", "--unified=0", "main...HEAD", "--", "a.rs"]
    );
}

#[test]
fn repository_paths() {
    let repo = GitRepo::from_rev_parse("/work/repo\n", ".git\n");
    assert_eq!(repo.root(), "/work/repo");
    assert_eq!(repo.git_dir(), "/work/repo/.git");
    assert_eq!(repo.index_path(), "/work/repo/.git/annotations/index.json");
    assert_eq!(repo.relative("/work/repo/src/a.rs").unwrap(), "src/a.rs");
    assert_eq!(repo.relative("src/a.rs").unwrap(), "src/a.rs");
    assert_eq!(
        repo.relative("/elsewhere/a.rs").unwrap_err().code,
        ErrorCode::InvalidFormat
    );
    let absolute = GitRepo::from_rev_parse("/w\n", "/tmp/gitdir\n");
    assert_eq!(absolute.git_dir(), "/tmp/gitdir");
    assert_eq!(object_name("HEAD", "src\\a.rs"), "HEAD:src/a.rs");
    assert_eq!(object_name("", "a.rs"), ":a.rs");
    assert_eq!(config_value("  Calvin \n"), Some("Calvin".to_owned()));
    assert_eq!(config_value(" \n"), None);
}

#[test]
fn hunks_fit_within_line_numbers() {
    let fine = vec![DiffHunk { old_start: 1, old_count: 0, new_start: u32::MAX, new_count: 0 }];
    assert!(hunks_fit(&fine));
    let edge = vec![DiffHunk { old_start: 1, old_count: 1, new_start: u32::MAX - 1, new_count: 1 }];
    assert!(hunks_fit(&edge));
    let past = vec![DiffHunk { old_start: 1, old_count: 1, new_start: u32::MAX, new_count: 1 }];
    assert!(!hunks_fit(&past));
}

#[test]
fn line_breaks_are_counted_as_similar_splits_lines() {
    assert_eq!(break_count_of(""), 0);
    assert_eq!(break_count_of("one\ntwo\r\nthree\rfour"), 4);
    assert_eq!(output_text("plain é".as_bytes()), "plain é");
    assert_eq!(output_text(&[b'a', 0xff]), "a\u{fffd}");
}
