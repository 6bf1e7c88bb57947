use gloss::checks::{check_glosses, check_touched_sources, GlossInput, TouchedInput};
use gloss::commands::{
    add_record, fresh_timestamp, maintain_gloss, previous_ref, previous_source, require_hunk,
    source_changed,
};
use gloss::edit_id::parse_edit_id;
use gloss::error::{ErrorCode, GlossError};
use gloss::format::{GlossFile, LineRange};
use gloss::git::{
    diff_args, diff_hunks_between, lifecycle_changes_of, parse_hunks, ChangeScope, DiffHunk,
    LifecycleChange,
};
use gloss::paths::gloss_path;
use gloss::setup::{hook_script, ignore_contents, managed_hooks, with_attribute_rule, workflow_action, workflow_text};
use gloss::harness::{
    managed_canonical, managed_skill, preflight, PathState, SkillInstallPlan, SkillScope, TargetState,
};
use gloss::state::{hash, DerivedState};
use gloss::time::Timestamp;

const ID: &str = "0198f5cf-4807-7ac3-a42a-938ff9b78220";
const SOURCE: &str = "src/foo.txt";
const GLOSS: &str = "src/.gloss/foo.txt.gloss";

fn at(text: &str) -> Timestamp {
    Timestamp::parse(text).unwrap()
}

/// The gloss that `add src/foo.txt 2:2 "Capture the reason."` writes.
fn annotated() -> GlossFile {
    let added = at("2026-08-28T18:00:00Z");
    let mut document = GlossFile::empty(added, "codex");
    add_record(
        &mut document,
        parse_edit_id(ID).unwrap(),
        LineRange { start: 2, end: 2 },
        added,
        "unknown".to_owned(),
        "codex".to_owned(),
        "unknown".to_owned(),
        "Capture the reason.",
        SOURCE,
    )
    .unwrap();
    document
}

fn bytes(text: &str) -> Option<Vec<u8>> {
    Some(text.as_bytes().to_vec())
}

fn unread() -> TouchedInput {
    TouchedInput { source_bytes: None, gloss_bytes: None, previous_gloss: None }
}

fn codes(errors: &[GlossError]) -> Vec<ErrorCode> {
    errors.iter().map(|error| error.code).collect()
}

#[test]
fn init_project_does_not_require_a_home_directory() {
    let harnesses = vec!["codex".to_owned(), "grok".to_owned(), "rovo".to_owned()];
    let plan = SkillInstallPlan::new(SkillScope::Project, "/repo", &harnesses);
    assert_eq!(plan.root(), "/repo");
    assert_eq!(plan.canonical_directory(), "/repo/.skills/gloss");
    let files = plan.project_files();
    for file in [
        ".codex/skills/gloss/SKILL.md",
        ".grok/skills/gloss/SKILL.md",
        ".skills/gloss/SKILL.md",
        ".rovodev/skills/archagent-gloss/SKILL.md",
    ] {
        assert!(files.contains(&file.to_owned()), "missing {file}");
    }
}

#[test]
fn init_refuses_to_overwrite_an_unmanaged_agent_skill() {
    let user_owned = "---\nname: gloss\n---\nUser-owned skill.\n";
    assert!(!managed_skill(user_owned));
    assert!(!managed_canonical(user_owned, "---\nname: gloss\n---\nmanaged-by: gloss\n"));
    assert!(managed_skill("---\nmetadata:\n  managed-by: gloss\n---\n"));
    assert!(managed_canonical(user_owned, user_owned));

    let harnesses = vec!["codex".to_owned(), "rovo".to_owned()];
    let plan = SkillInstallPlan::new(SkillScope::Project, "/repo", &harnesses);
    let fresh = || TargetState {
        skill: PathState::Absent,
        metadata: PathState::Absent,
        directory_nonempty: false,
    };
    let owned = TargetState {
        skill: PathState::File(user_owned.to_owned()),
        metadata: PathState::Absent,
        directory_nonempty: true,
    };
    let error = preflight(&plan, &PathState::Absent, &PathState::Absent, &vec![owned, fresh()], "skill", "meta")
        .unwrap_err();
    assert_eq!(error.code, ErrorCode::AmbiguousRepair);
    assert_eq!(error.message, "refusing to overwrite an unmanaged codex skill adapter");
    assert_eq!(error.file.as_deref(), Some("/repo/.codex/skills/gloss/SKILL.md"));
    assert!(preflight(&plan, &PathState::Absent, &PathState::Absent, &vec![fresh(), fresh()], "skill", "meta").is_ok());
}

#[test]
fn staged_lint_requires_a_fresh_staged_gloss_and_reads_index_content() {
    let head_gloss = annotated().render();
    let staged_source = "one\nchanged again\n";

    let changed = vec![SOURCE.to_owned()];
    let reads = vec![TouchedInput {
        source_bytes: bytes(staged_source),
        gloss_bytes: bytes(&head_gloss),
        previous_gloss: bytes(&head_gloss),
    }];
    let mut errors: Vec<GlossError> = Vec::new();
    let glosses = check_touched_sources(&changed, &Vec::new(), &reads, &mut errors).unwrap();
    assert_eq!(glosses, vec![GLOSS.to_owned()]);
    assert_eq!(codes(&errors), vec![ErrorCode::OutdatedHeader]);

    let mut fixed = annotated();
    fixed.updated = fresh_timestamp(at("2026-08-28T19:00:00Z"), fixed.updated);
    let fixed_gloss = fixed.render();
    let changed = vec![GLOSS.to_owned(), SOURCE.to_owned()];
    let reads = vec![
        unread(),
        TouchedInput {
            source_bytes: bytes(staged_source),
            gloss_bytes: bytes(&fixed_gloss),
            previous_gloss: bytes(&head_gloss),
        },
    ];
    let mut errors: Vec<GlossError> = Vec::new();
    let glosses = check_touched_sources(&changed, &Vec::new(), &reads, &mut errors).unwrap();
    assert!(errors.is_empty(), "{errors:?}");
    let history = vec![(ID.to_owned(), "c1".to_owned())];
    let staged = |gloss_text: &str| GlossInput {
        gloss: glosses[0].clone(),
        source_bytes: bytes(staged_source),
        gloss_bytes: bytes(gloss_text),
        known: None,
        hunks: vec![DiffHunk { old_start: 2, old_count: 1, new_start: 2, new_count: 1 }],
    };
    check_glosses(&vec![staged(&fixed_gloss)], &history, &Vec::new(), &mut errors);
    assert!(errors.is_empty(), "{errors:?}");

    let reads = vec![
        unread(),
        TouchedInput {
            source_bytes: bytes(staged_source),
            gloss_bytes: bytes("not a gloss\n"),
            previous_gloss: bytes(&head_gloss),
        },
    ];
    let glosses = check_touched_sources(&changed, &Vec::new(), &reads, &mut errors).unwrap();
    assert_eq!(glosses, vec![GLOSS.to_owned()]);
    check_glosses(&vec![staged("not a gloss\n")], &history, &Vec::new(), &mut errors);
    assert_eq!(codes(&errors), vec![ErrorCode::InvalidFormat]);
}

#[test]
fn ci_lint_compares_committed_files_to_an_explicit_base() {
    let base = "0123456789abcdef0123456789abcdef01234567";
    let scope = ChangeScope::Base(base.to_owned());
    assert_eq!(previous_ref(&scope), base);
    assert_eq!(
        diff_args(&scope, false, false, "/repo", SOURCE),
        vec![
            "diff".to_owned(),
            "--unified=0".to_owned(),
            format!("{base}...HEAD"),
            "--".to_owned(),
            SOURCE.to_owned(),
        ]
    );

    let base_gloss = annotated().render();
    let mut updated = annotated();
    updated.updated = fresh_timestamp(at("2026-08-28T19:00:00Z"), updated.updated);
    let valid = vec![GLOSS.to_owned(), SOURCE.to_owned()];
    let reads = vec![
        unread(),
        TouchedInput {
            source_bytes: bytes("one\nci change\n"),
            gloss_bytes: bytes(&updated.render()),
            previous_gloss: bytes(&base_gloss),
        },
    ];
    let mut errors: Vec<GlossError> = Vec::new();
    check_touched_sources(&valid, &Vec::new(), &reads, &mut errors).unwrap();
    assert!(errors.is_empty(), "{errors:?}");

    let missing_update = vec![SOURCE.to_owned()];
    let reads = vec![TouchedInput {
        source_bytes: bytes("one\nmissing metadata update\n"),
        gloss_bytes: bytes(&updated.render()),
        previous_gloss: bytes(&updated.render()),
    }];
    check_touched_sources(&missing_update, &Vec::new(), &reads, &mut errors).unwrap();
    assert_eq!(codes(&errors), vec![ErrorCode::OutdatedHeader]);
}

#[test]
fn add_rejects_ranges_outside_a_real_hunk() {
    let hunks = diff_hunks_between("one\ntwo\nthree\n", "one\nchanged\nthree\n");
    assert_eq!(hunks, vec![DiffHunk { old_start: 2, old_count: 1, new_start: 2, new_count: 1 }]);
    assert_eq!(parse_hunks("@@ -2 +2 @@\n-two\n+changed\n"), hunks);
    let error = require_hunk(&LineRange { start: 3, end: 3 }, &hunks, SOURCE).unwrap_err();
    assert_eq!(error.code, ErrorCode::GlossOutsideHunk);
    assert_eq!(error.range, Some([3, 3]));
    assert!(require_hunk(&LineRange { start: 2, end: 2 }, &hunks, SOURCE).is_ok());
}

/// One `update` of the annotated gloss with the source now `current`; the
/// kept snapshots stand for the files beside the derived state.
fn update_once(
    document: &mut GlossFile,
    state: &mut DerivedState,
    snapshots: &mut Vec<Vec<u8>>,
    head: &str,
    current: &str,
) -> bool {
    let changed = source_changed(state.file(SOURCE), current.as_bytes()).unwrap_or(true);
    let old = if changed {
        let kept = state.file(SOURCE).and_then(|file| {
            snapshots.iter().find(|bytes| hash(bytes) == file.source_hash).cloned()
        });
        previous_source(kept.as_deref(), Some(head.to_owned()))
    } else {
        None
    };
    let write = maintain_gloss(
        document,
        state,
        SOURCE,
        GLOSS,
        current.as_bytes(),
        changed,
        old.as_deref(),
        at("2026-08-28T19:00:00Z"),
        "codex",
    )
    .unwrap();
    snapshots.push(current.as_bytes().to_vec());
    write
}

#[test]
fn update_shifts_ranges_once_when_lines_move() {
    let head = "one\nchanged\nthree\n";
    let mut document = annotated();
    let mut state = DerivedState::empty();
    state.record_file(SOURCE, head.as_bytes(), document.updated);
    let mut snapshots = vec![head.as_bytes().to_vec()];

    assert!(update_once(&mut document, &mut state, &mut snapshots, head, "inserted\none\nchanged\nthree\n"));
    assert_eq!(document.records()[0].range, LineRange { start: 3, end: 3 });
    let first = document.render();
    assert!(first.lines().any(|line| line.contains(" 3:3 ")));

    assert!(!update_once(&mut document, &mut state, &mut snapshots, head, "inserted\none\nchanged\nthree\n"));
    assert_eq!(document.render(), first);

    assert!(update_once(
        &mut document,
        &mut state,
        &mut snapshots,
        head,
        "another\ninserted\none\nchanged\nthree\n",
    ));
    assert!(document.render().lines().any(|line| line.contains(" 4:4 ")));
}

#[test]
fn lint_fix_creates_a_header_only_gloss_for_every_touched_file() {
    let changed = vec![SOURCE.to_owned()];
    let missing = vec![TouchedInput {
        source_bytes: bytes("changed\n"),
        gloss_bytes: None,
        previous_gloss: None,
    }];
    let mut errors: Vec<GlossError> = Vec::new();
    check_touched_sources(&changed, &Vec::new(), &missing, &mut errors).unwrap();
    assert_eq!(codes(&errors), vec![ErrorCode::MissingGloss]);

    let created = GlossFile::empty(at("2026-08-28T19:00:00Z"), "codex").render();
    assert!(created.starts_with("version: 1\nupdated: "));
    assert!(created.contains("\neditor: codex\n\n"));
    assert_eq!(created.lines().count(), 4);
    let fixed = vec![GLOSS.to_owned(), SOURCE.to_owned()];
    let reads = vec![
        unread(),
        TouchedInput { source_bytes: bytes("changed\n"), gloss_bytes: bytes(&created), previous_gloss: None },
    ];
    let mut errors: Vec<GlossError> = Vec::new();
    let glosses = check_touched_sources(&fixed, &Vec::new(), &reads, &mut errors).unwrap();
    let inputs: Vec<GlossInput> = glosses
        .iter()
        .map(|gloss| GlossInput {
            gloss: gloss.clone(),
            source_bytes: bytes("changed\n"),
            gloss_bytes: bytes(&created),
            known: None,
            hunks: vec![DiffHunk { old_start: 1, old_count: 1, new_start: 1, new_count: 1 }],
        })
        .collect();
    check_glosses(&inputs, &Vec::new(), &Vec::new(), &mut errors);
    assert!(errors.is_empty(), "{errors:?}");
}

#[test]
fn init_is_idempotent_and_hooks_stay_single() {
    let attributes = with_attribute_rule("").unwrap();
    assert_eq!(with_attribute_rule(&attributes), None);
    assert_eq!(attributes.matches("linguist-generated=true").count(), 1);
    for (_, command) in managed_hooks() {
        let once = hook_script(None, command);
        let twice = hook_script(Some(&once), command);
        assert_eq!(twice, once);
        assert_eq!(twice.matches("# gloss:start").count(), 1);
        assert_eq!(twice.matches(command).count(), 1);
    }
    let ignore = ignore_contents("").unwrap();
    assert_eq!(ignore_contents(&ignore).unwrap(), ignore);
    let workflow = workflow_text("0.1.0");
    assert!(workflow.contains("GLOSS_BASE: ${{ github.event.pull_request.base.sha }}"));
    assert!(workflow.contains(
        "cargo install --git https://github.com/ArchAstro/gloss --tag v0.1.0 --locked gloss"
    ));
    assert_eq!(workflow_action(Some(&workflow), &workflow).unwrap(), false);
}

#[test]
fn update_moves_and_deletes_glosses_with_sources() {
    let moved = lifecycle_changes_of(b"R  lib/foo.txt\0src/foo.txt\0");
    assert_eq!(moved.len(), 1);
    match &moved[0] {
        LifecycleChange::Rename { from, to } => {
            assert_eq!(gloss_path(from).unwrap(), "src/.gloss/foo.txt.gloss");
            assert_eq!(gloss_path(to).unwrap(), "lib/.gloss/foo.txt.gloss");
        }
        other => panic!("unexpected {other:?}"),
    }
    let deleted = lifecycle_changes_of(b"D  lib/foo.txt\0");
    match &deleted[0] {
        LifecycleChange::Delete { path } => {
            assert_eq!(gloss_path(path).unwrap(), "lib/.gloss/foo.txt.gloss");
        }
        other => panic!("unexpected {other:?}"),
    }
    let mut state = DerivedState::empty();
    state.record_file("lib/foo.txt", b"one\nchanged\n", at("2026-08-28T18:00:00Z"));
    state.remove_file("lib/foo.txt");
    assert!(state.file("lib/foo.txt").is_none());
}
