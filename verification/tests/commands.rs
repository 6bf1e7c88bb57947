use gloss::commands::{
    add_record, added_message_of, check_fix_scope, init_message, lifecycle_step, maintain_gloss,
    new_gloss, previous_ref, previous_source, remap_document, repair_summary, require_hunk,
    source_changed, status_section, status_text, text_line_count, update_summary, HunkStatus,
    LifecycleStep, LintOptions,
};
use gloss::edit_id::parse_edit_id;
use gloss::error::ErrorCode;
use gloss::format::{GlossFile, GlossLine, LineRange};
use gloss::git::{ChangeScope, DiffHunk, LifecycleChange};
use gloss::harness::SkillScope;
use gloss::state::{hash, DerivedState, FileState};
use gloss::time::Timestamp;

const ID_A: &str = "0198f5cf-4807-7ac3-a42a-938ff9b78220";

fn at(text: &str) -> Timestamp {
    Timestamp::parse(text).unwrap()
}

fn sample() -> GlossFile {
    let text = format!(
        "version: 1\nupdated: 2026-08-28T18:42:11Z\neditor: codex\n\nopaque line\n{ID_A} 3:4 2026-08-28T18:41:53Z calvin codex sess_1 Why.\n"
    );
    GlossFile::parse(&text, "a.gloss").unwrap()
}

#[test]
fn add_appends_a_trimmed_record_and_stamps_the_header() {
    let mut document = GlossFile::empty(at("2026-08-28T18:00:00Z"), "codex");
    let id = parse_edit_id(ID_A).unwrap();
    let now = at("2026-08-28T18:42:11Z");
    add_record(
        &mut document,
        id,
        LineRange::new(3, 4).unwrap(),
        now,
        "calvin".to_owned(),
        "agent".to_owned(),
        "sess".to_owned(),
        "  Keep parsing separate.  ",
        "src/a.rs",
    )
    .unwrap();
    assert_eq!(document.updated, now);
    assert_eq!(document.editor, "agent");
    let records = document.records();
    assert_eq!(records.len(), 1);
    assert_eq!(records[0].explanation, "Keep parsing separate.");
    assert_eq!(records[0].timestamp, now);
    assert_eq!(
        document.render(),
        format!("version: 1\nupdated: 2026-08-28T18:42:11Z\neditor: agent\n\n{ID_A} 3:4 2026-08-28T18:42:11Z calvin agent sess Keep parsing separate.\n")
    );
    let before = document.render();
    let error = add_record(
        &mut document,
        id,
        LineRange::new(3, 4).unwrap(),
        at("2026-08-28T19:00:00Z"),
        "calvin".to_owned(),
        "agent".to_owned(),
        "sess".to_owned(),
        " \t ",
        "src/a.rs",
    )
    .unwrap_err();
    assert_eq!(error.code, ErrorCode::InvalidFormat);
    assert_eq!(error.message, "explanation cannot be empty");
    assert_eq!(document.render(), before);
}

#[test]
fn add_needs_a_touched_hunk() {
    let range = LineRange::new(3, 4).unwrap();
    let hunks = vec![DiffHunk { old_start: 1, old_count: 0, new_start: 4, new_count: 2 }];
    assert!(require_hunk(&range, &hunks, "src/a.rs").is_ok());
    let error = require_hunk(&range, &Vec::new(), "src/a.rs").unwrap_err();
    assert_eq!(error.code, ErrorCode::GlossOutsideHunk);
    assert_eq!(error.edit_id.as_deref(), Some(""));
    assert_eq!(error.range, Some([3, 4]));
    assert_eq!(
        added_message_of(parse_edit_id(ID_A).unwrap(), "src\\a.rs", &range),
        format!("Added {ID_A} to src/a.rs at 3:4.")
    );
}

#[test]
fn update_moves_ranges_with_the_source() {
    let mut document = sample();
    remap_document(&mut document, "a\nb\nc\nd\n", "new\na\nb\nc\nd\n", "a.gloss").unwrap();
    let records = document.records();
    assert_eq!(records[0].range, LineRange { start: 4, end: 5 });
    assert!(matches!(&document.body[0], GlossLine::Opaque(text) if text == "opaque line"));

    let mut unchanged = sample();
    remap_document(&mut unchanged, "same\n", "same\n", "a.gloss").unwrap();
    assert_eq!(unchanged.records()[0].range, LineRange { start: 3, end: 4 });

    let mut stale = sample();
    let error = remap_document(&mut stale, "a\nb\nc\nd\n", "a\nb\nX\nY\nZ\nd\n", "a.gloss").unwrap_err();
    assert_eq!(error.code, ErrorCode::StaleGloss);
    assert_eq!(error.file.as_deref(), Some("a.gloss"));
    assert_eq!(error.edit_id.as_deref(), Some(ID_A));
    assert_eq!(error.range, Some([3, 4]));
    assert_eq!(stale.records()[0].range, LineRange { start: 3, end: 4 });
}

#[test]
fn changes_are_known_from_the_derived_state() {
    let known = FileState { source_hash: hash(b"one"), header_updated: at("2026-08-28T18:00:00Z") };
    assert_eq!(source_changed(Some(&known), b"one"), Some(false));
    assert_eq!(source_changed(Some(&known), b"two"), Some(true));
    assert_eq!(source_changed(None, b"one"), None);
}

#[test]
fn recorded_contents_no_longer_count_as_changed() {
    let mut state = DerivedState::empty();
    assert_eq!(source_changed(state.file("src/a.rs"), b"one"), None);
    state.record_file("src/a.rs", b"one", at("2026-08-28T18:00:00Z"));
    assert_eq!(source_changed(state.file("src/a.rs"), b"one"), Some(false));
    assert_eq!(source_changed(state.file("src/a.rs"), b"two"), Some(true));
}

#[test]
fn command_reports() {
    assert_eq!(update_summary(0), "Gloss metadata is already up to date.");
    assert_eq!(update_summary(1), "Updated 1 gloss file.");
    assert_eq!(update_summary(3), "Updated 3 gloss files.");
    assert_eq!(
        repair_summary(1, 0),
        "Repaired provenance for 1 edit; gloss metadata is already up to date."
    );
    assert_eq!(repair_summary(2, 2), "Repaired provenance for 2 edits; updated 2 gloss files.");
    assert_eq!(
        init_message(1, SkillScope::User),
        "Initialized Gloss: installed hooks, CI validation, generated-file handling, setup metadata, and 1 agent skill (user scope)."
    );
    assert_eq!(
        init_message(0, SkillScope::Project),
        "Initialized Gloss: installed hooks, CI validation, generated-file handling, setup metadata, and 0 agent skills (project scope)."
    );
}

#[test]
fn status_lists_hunks_and_their_records() {
    let document = sample();
    let records = document.records();
    let hunks = vec![
        DiffHunk { old_start: 1, old_count: 0, new_start: 1, new_count: 1 },
        DiffHunk { old_start: 3, old_count: 1, new_start: 3, new_count: 2 },
        DiffHunk { old_start: 9, old_count: 2, new_start: 9, new_count: 0 },
    ];
    let (text, entries) = status_section("src/a.rs", &hunks, &records).unwrap();
    assert_eq!(
        text,
        "src/a.rs\n  1:1              unglossed\n  3:4  0198f5cf-480…  glossed\n\n"
    );
    let id = parse_edit_id(ID_A).unwrap();
    assert_eq!(
        entries,
        vec![
            HunkStatus { range: LineRange { start: 1, end: 1 }, edit_id: None },
            HunkStatus { range: LineRange { start: 3, end: 4 }, edit_id: Some(id) },
        ]
    );
    assert!(status_section("src/a.rs", &Vec::new(), &records).is_none());
    assert_eq!(status_text(&Vec::new()), "Working tree has no changed source hunks.");
    assert_eq!(status_text(&vec![text.clone(), "b.rs\n\n".to_owned()]), format!("{text}b.rs"));
}

#[test]
fn small_rules() {
    assert_eq!(text_line_count(""), 0);
    assert_eq!(text_line_count("one"), 1);
    assert_eq!(text_line_count("one\ntwo\n"), 2);
    assert_eq!(previous_ref(&ChangeScope::Staged), "HEAD");
    assert_eq!(previous_ref(&ChangeScope::Base("origin/main".to_owned())), "origin/main");
    assert!(check_fix_scope(&LintOptions::default()).is_ok());
    let staged = LintOptions { scope: ChangeScope::Staged, fix: true, editor: None };
    assert_eq!(check_fix_scope(&staged).unwrap_err().code, ErrorCode::InvalidFormat);
}

#[test]
fn update_maintains_one_gloss_and_its_state() {
    let source = b"new\na\nb\nc\nd\n";
    let now = at("2026-08-28T19:00:00Z");

    let mut quiet = sample();
    let mut state = DerivedState::empty();
    let write = maintain_gloss(&mut quiet, &mut state, "a.rs", "a.gloss", source, false, None, now, "gloss").unwrap();
    assert!(!write);
    assert_eq!(quiet.updated, at("2026-08-28T18:42:11Z"));
    let known = state.file("a.rs").unwrap();
    assert_eq!(known.header_updated, at("2026-08-28T18:42:11Z"));
    assert_eq!(known.source_hash, hash(source));

    let mut moved = sample();
    let mut state = DerivedState::empty();
    let write = maintain_gloss(&mut moved, &mut state, "a.rs", "a.gloss", source, true, Some("a\nb\nc\nd\n"), now, "codex").unwrap();
    assert!(write);
    assert_eq!(moved.records()[0].range, LineRange { start: 4, end: 5 });
    assert_eq!(moved.updated, now);
    assert_eq!(moved.editor, "codex");
    assert_eq!(state.file("a.rs").unwrap().header_updated, now);

    let mut late = sample();
    let mut state = DerivedState::empty();
    let early = at("2026-08-28T18:00:00Z");
    maintain_gloss(&mut late, &mut state, "a.rs", "a.gloss", source, true, None, early, "codex").unwrap();
    assert_eq!(late.updated, at("2026-08-28T18:42:11.000000001Z"));
    assert_eq!(late.records()[0].range, LineRange { start: 3, end: 4 });

    let mut stale = sample();
    let mut state = DerivedState::empty();
    let error = maintain_gloss(&mut stale, &mut state, "a.rs", "a.gloss", b"a\nb\nX\nY\nZ\nd\n", true, Some("a\nb\nc\nd\n"), now, "codex").unwrap_err();
    assert_eq!(error.code, ErrorCode::StaleGloss);
    assert_eq!(stale.updated, at("2026-08-28T18:42:11Z"));
    assert!(state.file("a.rs").is_none());
}

#[test]
fn ranges_move_from_the_recorded_contents_first() {
    assert_eq!(previous_source(Some(b"kept\n"), Some("head\n".to_owned())), Some("kept\n".to_owned()));
    assert_eq!(previous_source(Some(&[0xff, 0xfe]), Some("head\n".to_owned())), Some("head\n".to_owned()));
    assert_eq!(previous_source(None, Some("head\n".to_owned())), Some("head\n".to_owned()));
    assert_eq!(previous_source(None, None), None);
}

#[test]
fn glosses_follow_moved_and_deleted_sources() {
    let moved = LifecycleChange::Rename { from: "src/foo.txt".to_owned(), to: "lib/foo.txt".to_owned() };
    let mut state = DerivedState::empty();
    state.record_file("src/foo.txt", b"one\n", at("2026-08-28T18:00:00Z"));
    match lifecycle_step(&moved, true, false, &mut state).unwrap() {
        LifecycleStep::Move { from, to } => {
            assert_eq!(from, "src/.gloss/foo.txt.gloss");
            assert_eq!(to, "lib/.gloss/foo.txt.gloss");
        }
        other => panic!("unexpected {other:?}"),
    }
    assert!(state.file("src/foo.txt").is_none());

    let mut state = DerivedState::empty();
    state.record_file("src/foo.txt", b"one\n", at("2026-08-28T18:00:00Z"));
    assert!(matches!(lifecycle_step(&moved, false, false, &mut state).unwrap(), LifecycleStep::Keep));
    assert!(state.file("src/foo.txt").is_some());
    let error = lifecycle_step(&moved, true, true, &mut state).unwrap_err();
    assert_eq!(error.code, ErrorCode::AmbiguousRepair);
    assert_eq!(error.file.as_deref(), Some("lib/.gloss/foo.txt.gloss"));
    assert!(state.file("src/foo.txt").is_some());

    let deleted = LifecycleChange::Delete { path: "src/foo.txt".to_owned() };
    match lifecycle_step(&deleted, true, false, &mut state).unwrap() {
        LifecycleStep::Delete { gloss } => assert_eq!(gloss, "src/.gloss/foo.txt.gloss"),
        other => panic!("unexpected {other:?}"),
    }
    assert!(state.file("src/foo.txt").is_none());
    assert!(matches!(lifecycle_step(&deleted, false, false, &mut state).unwrap(), LifecycleStep::Forget));
}

#[test]
fn touched_files_get_a_header_only_gloss_once() {
    let all: Vec<String> = Vec::new();
    assert_eq!(new_gloss("src/foo.txt", &all, true, false).unwrap(), Some("src/.gloss/foo.txt.gloss".to_owned()));
    assert_eq!(new_gloss("src/foo.txt", &all, true, true).unwrap(), None);
    assert_eq!(new_gloss("src/foo.txt", &all, false, false).unwrap(), None);
    assert_eq!(new_gloss("src/.gloss/foo.txt.gloss", &all, true, false).unwrap(), None);
    let docs = vec!["docs".to_owned()];
    assert_eq!(new_gloss("src/foo.txt", &docs, true, false).unwrap(), None);
    assert_eq!(new_gloss("/", &all, true, false).unwrap_err().code, ErrorCode::InvalidFormat);
}

#[test]
fn edit_ids_parse_only_in_uuid_shapes() {
    assert_eq!(parse_edit_id(ID_A).map(|id| id != 0), Some(true));
    assert_eq!(parse_edit_id("0198f5cf48077ac3a42a938ff9b78220"), parse_edit_id(ID_A));
    assert_eq!(parse_edit_id("0198f5cf-4807-7ac3-a42a-938ff9b7822"), None);
    assert_eq!(parse_edit_id("not-a-uuid"), None);
}
