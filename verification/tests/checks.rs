use gloss::checks::{
    check_gloss, check_glosses, check_records, check_touched_source, check_touched_sources,
    lint_summary, parse_gloss_bytes, plural, provenance_from_log, range_fits, remap_range,
    source_line_count_bytes, token, touches_hunk, GlossInput, TouchedInput,
};
use gloss::error::{ErrorCode, GlossError};
use gloss::format::{GlossFile, LineRange};
use gloss::git::DiffHunk;
use gloss::state::{hash, FileState};
use gloss::time::Timestamp;

const ID_A: &str = "0198f5cf-4807-7ac3-a42a-938ff9b78220";
const ID_B: &str = "0198f5cf-4807-7ac3-a42a-938ff9b78221";

fn gloss_text(updated: &str, body: &str) -> String {
    if body.is_empty() {
        format!("version: 1\nupdated: {updated}\neditor: codex\n\n")
    } else {
        format!("version: 1\nupdated: {updated}\neditor: codex\n\n{body}\n")
    }
}

fn row(id: &str, range: &str) -> String {
    format!("{id} {range} 2026-08-28T18:41:53Z calvin codex sess_1 Why.")
}

fn hunk(old_start: u32, old_count: u32, new_start: u32, new_count: u32) -> DiffHunk {
    DiffHunk { old_start, old_count, new_start, new_count }
}

#[test]
fn tokens_join_words_and_fall_back() {
    assert_eq!(token(Some("Ada  Lovelace".to_owned()), "unknown"), "Ada_Lovelace");
    assert_eq!(token(Some("   ".to_owned()), "unknown"), "unknown");
    assert_eq!(token(None, "unknown"), "unknown");
    assert_eq!(plural(1), "");
    assert_eq!(plural(0), "s");
    assert_eq!(plural(2), "s");
}

#[test]
fn ranges_shift_past_earlier_edits() {
    let range = LineRange::new(10, 12).unwrap();
    assert_eq!(remap_range(&range, &Vec::new()).unwrap(), range);
    let before = vec![hunk(2, 1, 2, 3), hunk(5, 2, 7, 0)];
    assert_eq!(remap_range(&range, &before).unwrap(), LineRange { start: 10, end: 12 });
    let grows = vec![hunk(2, 1, 2, 4)];
    assert_eq!(remap_range(&range, &grows).unwrap(), LineRange { start: 13, end: 15 });
    let after = vec![hunk(20, 1, 20, 5)];
    assert_eq!(remap_range(&range, &after).unwrap(), range);
    let same_size = vec![hunk(11, 1, 11, 1)];
    assert_eq!(remap_range(&range, &same_size).unwrap(), range);
    let overlapping = vec![hunk(11, 1, 11, 2)];
    assert_eq!(remap_range(&range, &overlapping).unwrap_err().code, ErrorCode::StaleGloss);
    let to_zero = vec![hunk(1, 5, 1, 0)];
    let small = LineRange::new(3, 9).unwrap();
    assert_eq!(remap_range(&LineRange::new(6, 7).unwrap(), &to_zero).unwrap(), LineRange { start: 1, end: 2 });
    assert_eq!(remap_range(&small, &to_zero).unwrap_err().code, ErrorCode::StaleGloss);
}

#[test]
fn ranges_must_end_within_the_file() {
    let range = LineRange::new(3, 5).unwrap();
    assert!(range_fits(&range, 5, "a.rs").is_ok());
    let error = range_fits(&range, 4, "a.rs").unwrap_err();
    assert_eq!(error.code, ErrorCode::InvalidRange);
    assert_eq!(error.message, "range ends at 5, but the file has 4 lines");
    assert!(range_fits(&LineRange::new(1, 1).unwrap(), 0, "a.rs").is_ok());
}

#[test]
fn hunks_touch_ranges_by_their_new_lines() {
    let range = LineRange::new(4, 6).unwrap();
    assert!(touches_hunk(&range, &vec![hunk(1, 0, 6, 2)]));
    assert!(!touches_hunk(&range, &vec![hunk(1, 0, 7, 2)]));
    assert!(!touches_hunk(&range, &vec![hunk(4, 3, 4, 0)]));
    assert!(!touches_hunk(&range, &Vec::new()));
}

#[test]
fn line_counts_of_source_bytes() {
    assert_eq!(source_line_count_bytes(b""), 0);
    assert_eq!(source_line_count_bytes(b"a"), 1);
    assert_eq!(source_line_count_bytes(b"a\nb\n"), 2);
    assert_eq!(source_line_count_bytes(b"a\r\nb"), 2);
    assert_eq!(source_line_count_bytes(&[0xff, 0x0a]), 0);
}

#[test]
fn provenance_keeps_the_first_commit_that_added_an_edit() {
    let log = format!(
        "GLOSS_COMMIT:c1\n+++ b/src/.gloss/a.rs.gloss\n+{} 1:2 t u a s Why.\nGLOSS_COMMIT:c2\n+{} 1:3 t u a s Why.\n+{} 4:4 t u a s Other.\n-{} gone\n",
        ID_A.to_uppercase(),
        ID_A,
        ID_B,
        ID_B
    );
    let map = provenance_from_log(&log);
    assert_eq!(map.len(), 2);
    let get = |key: &str| map.iter().find(|(k, _)| k == key).map(|(_, v)| v.clone());
    assert_eq!(get(ID_A), Some("c1".to_owned()));
    assert_eq!(get(ID_B), Some("c2".to_owned()));
}

#[test]
fn gloss_bytes_must_be_utf8() {
    let error = parse_gloss_bytes(&[0xff, 0xfe], "a.gloss").unwrap_err();
    assert_eq!(error.code, ErrorCode::InvalidFormat);
    assert_eq!(error.message, "gloss file must be UTF-8");
    let text = gloss_text("2026-08-28T18:42:11Z", &row(ID_A, "1:2"));
    assert_eq!(parse_gloss_bytes(text.as_bytes(), "a.gloss").unwrap().records().len(), 1);
}

#[test]
fn touched_sources_need_bumped_glosses() {
    let gloss = "src/.gloss/a.rs.gloss";
    let old = gloss_text("2026-08-28T18:42:11Z", "");
    let same = gloss_text("2026-08-28T18:42:11Z", &row(ID_A, "1:2"));
    let bumped = gloss_text("2026-08-28T18:43:11Z", "");
    let mut errors: Vec<GlossError> = Vec::new();
    assert!(!check_touched_source("src/a.rs", gloss, true, None, false, None, &mut errors));
    assert_eq!(errors.pop().unwrap().code, ErrorCode::MissingGloss);
    assert!(check_touched_source("src/a.rs", gloss, true, Some(old.as_bytes()), false, Some(old.as_bytes()), &mut errors));
    assert_eq!(errors.pop().unwrap().code, ErrorCode::OutdatedHeader);
    assert!(check_touched_source("src/a.rs", gloss, true, Some(same.as_bytes()), true, Some(old.as_bytes()), &mut errors));
    let error = errors.pop().unwrap();
    assert_eq!(error.message, "gloss changed but its updated timestamp was not bumped");
    assert!(check_touched_source("src/a.rs", gloss, true, Some(bumped.as_bytes()), true, Some(old.as_bytes()), &mut errors));
    assert!(errors.is_empty());
    assert!(!check_touched_source("src/a.rs", gloss, false, Some(old.as_bytes()), true, Some(old.as_bytes()), &mut errors));
    assert_eq!(errors.pop().unwrap().code, ErrorCode::OrphanedGloss);
    assert!(!check_touched_source("src/a.rs", gloss, false, None, true, Some(old.as_bytes()), &mut errors));
    assert!(errors.is_empty());
    assert!(!check_touched_source("src/a.rs", gloss, false, None, false, None, &mut errors));
    assert!(errors.is_empty());
}

#[test]
fn records_are_checked_against_source_history_and_each_other() {
    let text = gloss_text("2026-08-28T18:42:11Z", &format!("{}\n{}", row(ID_A, "1:2"), row(ID_A, "9:9")));
    let document = GlossFile::parse(&text, "a.gloss").unwrap();
    let records = document.records();
    let mut seen: Vec<(u128, String)> = Vec::new();
    let mut errors: Vec<GlossError> = Vec::new();
    let history = vec![(ID_A.to_owned(), "c1".to_owned())];
    let cached = vec![(ID_A.to_owned(), "c0".to_owned())];
    check_records(&records, "a.gloss", 5, &Vec::new(), &history, &cached, &mut seen, &mut errors);
    let codes: Vec<ErrorCode> = errors.iter().map(|e| e.code).collect();
    assert_eq!(
        codes,
        vec![
            ErrorCode::StaleGloss,
            ErrorCode::InvalidRange,
            ErrorCode::DuplicateEditId,
            ErrorCode::StaleGloss
        ]
    );
    assert_eq!(errors[2].message, "edit ID already appears in a.gloss");
    assert_eq!(errors[1].edit_id.as_deref(), Some(ID_A));
    assert_eq!(errors[1].range, Some([9, 9]));
    assert_eq!(seen.len(), 1);

    let mut fresh: Vec<GlossError> = Vec::new();
    let mut seen: Vec<(u128, String)> = Vec::new();
    check_records(&records[..1].to_vec(), "a.gloss", 5, &Vec::new(), &Vec::new(), &Vec::new(), &mut seen, &mut fresh);
    assert_eq!(fresh.len(), 1);
    assert_eq!(fresh[0].code, ErrorCode::GlossOutsideHunk);
    let mut covered: Vec<GlossError> = Vec::new();
    let mut seen: Vec<(u128, String)> = Vec::new();
    check_records(&records[..1].to_vec(), "a.gloss", 5, &vec![hunk(1, 0, 2, 1)], &Vec::new(), &Vec::new(), &mut seen, &mut covered);
    assert!(covered.is_empty());
}

#[test]
fn gloss_files_are_checked_whole() {
    let gloss = "src/.gloss/a.rs.gloss";
    let text = gloss_text("2026-08-28T18:42:11Z", &row(ID_A, "1:2"));
    let history = vec![(ID_A.to_owned(), "c1".to_owned())];
    let mut seen: Vec<(u128, String)> = Vec::new();
    let mut errors: Vec<GlossError> = Vec::new();
    check_gloss(gloss, None, Some(text.as_bytes()), None, &Vec::new(), &history, &Vec::new(), &mut seen, &mut errors);
    assert_eq!(errors.pop().unwrap().code, ErrorCode::MissingSource);
    check_gloss(gloss, Some(b"x\ny\n"), Some(b"version: 9\n"), None, &Vec::new(), &history, &Vec::new(), &mut seen, &mut errors);
    assert_eq!(errors.pop().unwrap().code, ErrorCode::InvalidFormat);
    let known = FileState {
        source_hash: hash(b"x\ny\n"),
        header_updated: Timestamp::parse("2026-08-28T18:42:11Z").unwrap(),
    };
    check_gloss(gloss, Some(b"x\ny\n"), Some(text.as_bytes()), Some(&known), &Vec::new(), &history, &Vec::new(), &mut seen, &mut errors);
    assert!(errors.is_empty(), "{errors:?}");
    check_gloss(gloss, Some(b"x\nz\n"), Some(text.as_bytes()), Some(&known), &Vec::new(), &history, &Vec::new(), &mut Vec::new(), &mut errors);
    assert_eq!(errors.len(), 1);
    assert_eq!(errors[0].code, ErrorCode::OutdatedHeader);
    assert_eq!(errors[0].message, "header does not reflect the current source contents");
}

#[test]
fn lint_summaries() {
    assert_eq!(lint_summary(1, &Vec::new()), "Gloss lint passed (1 file).");
    assert_eq!(lint_summary(3, &Vec::new()), "Gloss lint passed (3 files).");
    let errors = vec![
        GlossError::new(ErrorCode::MissingGloss, "needs a gloss".to_owned()).file("a.rs"),
        GlossError::new(ErrorCode::GitError, "boom".to_owned()),
    ];
    assert_eq!(
        lint_summary(2, &errors),
        "a.rs: missing_gloss: needs a gloss\ngit_error: boom"
    );
}

fn read(source: Option<&str>, gloss: Option<&str>, previous: Option<&str>) -> TouchedInput {
    TouchedInput {
        source_bytes: source.map(|s| s.as_bytes().to_vec()),
        gloss_bytes: gloss.map(|s| s.as_bytes().to_vec()),
        previous_gloss: previous.map(|s| s.as_bytes().to_vec()),
    }
}

#[test]
fn changed_sources_are_paired_with_their_glosses() {
    let old = gloss_text("2026-08-28T18:42:11Z", "");
    let bumped = gloss_text("2026-08-28T18:43:11Z", "");
    let changed = vec![
        "src/a.rs".to_owned(),
        "src/.gloss/a.rs.gloss".to_owned(),
        "src/b.rs".to_owned(),
        "docs/c.md".to_owned(),
    ];
    let reads = vec![
        read(Some("a"), Some(&bumped), Some(&old)),
        read(None, None, None),
        read(Some("b"), None, None),
        read(Some("c"), Some(&old), Some(&old)),
    ];
    let mut errors: Vec<GlossError> = Vec::new();
    let glosses = check_touched_sources(&changed, &Vec::new(), &reads, &mut errors).unwrap();
    assert_eq!(glosses, vec!["src/.gloss/a.rs.gloss".to_owned(), "docs/.gloss/c.md.gloss".to_owned()]);
    let codes: Vec<ErrorCode> = errors.iter().map(|e| e.code).collect();
    assert_eq!(codes, vec![ErrorCode::MissingGloss, ErrorCode::OutdatedHeader]);
    assert_eq!(errors[0].file.as_deref(), Some("src/b.rs"));
    assert_eq!(errors[1].file.as_deref(), Some("docs/.gloss/c.md.gloss"));

    let mut selected: Vec<GlossError> = Vec::new();
    let only_src = vec!["src".to_owned()];
    let glosses = check_touched_sources(&changed, &only_src, &reads, &mut selected).unwrap();
    assert_eq!(glosses, vec!["src/.gloss/a.rs.gloss".to_owned()]);
    assert_eq!(selected.len(), 1);

    let rootless = vec!["/".to_owned()];
    let mut none: Vec<GlossError> = Vec::new();
    let error = check_touched_sources(&rootless, &Vec::new(), &vec![read(None, None, None)], &mut none)
        .unwrap_err();
    assert_eq!(error.code, ErrorCode::InvalidFormat);
}

#[test]
fn edit_ids_are_unique_across_gloss_files() {
    let text = gloss_text("2026-08-28T18:42:11Z", &row(ID_A, "1:2"));
    let other = gloss_text("2026-08-28T18:42:11Z", &format!("{}\n{}", row(ID_B, "1:1"), row(ID_A, "2:2")));
    let history = vec![(ID_A.to_owned(), "c1".to_owned()), (ID_B.to_owned(), "c1".to_owned())];
    let input = |gloss: &str, body: &str| GlossInput {
        gloss: gloss.to_owned(),
        source_bytes: Some(b"x\ny\n".to_vec()),
        gloss_bytes: Some(body.as_bytes().to_vec()),
        known: None,
        hunks: Vec::new(),
    };
    let inputs = vec![
        input("src/.gloss/a.rs.gloss", &text),
        input("misplaced.gloss", &text),
        input("src/.gloss/b.rs.gloss", &other),
    ];
    let mut errors: Vec<GlossError> = Vec::new();
    check_glosses(&inputs, &history, &Vec::new(), &mut errors);
    let codes: Vec<ErrorCode> = errors.iter().map(|e| e.code).collect();
    assert_eq!(codes, vec![ErrorCode::OrphanedGloss, ErrorCode::DuplicateEditId]);
    assert_eq!(errors[1].message, "edit ID already appears in src/.gloss/a.rs.gloss");
    assert_eq!(errors[1].file.as_deref(), Some("src/.gloss/b.rs.gloss"));
}

#[test]
fn ranges_move_by_the_edits_before_them_past_same_size_overlaps() {
    let range = LineRange::new(10, 12).unwrap();
    let hunks = vec![hunk(2, 1, 2, 3), hunk(11, 1, 13, 1), hunk(20, 0, 22, 4)];
    assert_eq!(remap_range(&range, &hunks).unwrap(), LineRange { start: 12, end: 14 });
}
