use gloss::edit_id::parse_edit_id;
use gloss::error::ErrorCode;
use gloss::format::{GlossFile, GlossRecord, LineRange, Risk};
use gloss::paths::{gloss_path, source_path};
use gloss::time::Timestamp;

const V1_RECORD: &str = "0198f5cf-4807-7ac3-a42a-938ff9b78220 42:58 2026-08-28T18:41:53Z calvin codex sess_123 Explain the intent.";
const V2_RECORD: &str = "0198f5cf-4807-7ac3-a42a-938ff9b78221 1:2 2026-08-28T18:41:54Z calvin codex sess_456 z-label,a-label high Risky change.";

/// The explanation is free-form prose, so it can imitate every metadata
/// shape: a word that parses as a risk in the risk position, an embedded
/// comma, and a leading bare `-`.
const METADATA_LOOKALIKES: [&str; 3] = [
    "compute high water marks lazily because the source is streamed.",
    "Parsing, validation, and lint stay separate.",
    "- none of the callers depend on ordering.",
];

fn file(version: u8, body: &str) -> String {
    format!("version: {version}\nupdated: 2026-08-28T18:42:11Z\neditor: codex\n\n{body}\n")
}

fn record(id: &str, start: u32, end: u32, at: &str, session: &str, labels: Vec<String>, risk: Risk, explanation: &str) -> GlossRecord {
    GlossRecord {
        edit_id: parse_edit_id(id).unwrap(),
        range: LineRange::new(start, end).unwrap(),
        timestamp: Timestamp::parse(at).unwrap(),
        user: "calvin".to_owned(),
        agent: "codex".to_owned(),
        session_id: session.to_owned(),
        labels,
        risk,
        explanation: explanation.to_owned(),
    }
}

#[test]
fn source_and_gloss_paths_round_trip() {
    let source = "src/bar/baz.ex";
    let gloss = gloss_path(source).unwrap();
    assert_eq!(gloss, "src/bar/.gloss/baz.ex.gloss");
    assert_eq!(source_path(&gloss).unwrap(), source);
    assert_eq!(
        source_path("src/bar/.annotations/baz.ex.gloss").unwrap_err().code,
        ErrorCode::OrphanedGloss
    );
}

#[test]
fn parses_and_renders_v1_byte_identically() {
    let input = file(1, V1_RECORD);
    let parsed = GlossFile::parse(&input, "foo.gloss").unwrap();
    assert_eq!(parsed.records()[0].range, LineRange { start: 42, end: 58 });
    assert_eq!(parsed.render(), input);
}

#[test]
fn rejects_versions_outside_supported_window() {
    for version in [0, 3, 255] {
        assert_eq!(
            GlossFile::parse(&file(version, V1_RECORD), "foo.gloss").unwrap_err().code,
            ErrorCode::InvalidFormat
        );
    }
    GlossFile::parse(&file(1, V1_RECORD), "foo.gloss").unwrap();
    GlossFile::parse(&file(2, V2_RECORD), "foo.gloss").unwrap();
}

#[test]
fn round_trips_unknown_headers_and_body_lines() {
    let input = format!(
        "version: 1\nupdated: 2026-08-28T18:42:11Z\neditor: codex\nfuture: value\n\nfuture-record payload\n{V1_RECORD}\nother-kind payload\n"
    );
    let parsed = GlossFile::parse(&input, "foo.gloss").unwrap();
    assert_eq!(parsed.records().len(), 1);
    assert_eq!(parsed.render(), input);
}

#[test]
fn parses_and_renders_v2_record() {
    let input = file(2, V2_RECORD);
    let parsed = GlossFile::parse(&input, "foo.gloss").unwrap();
    let records = parsed.records();
    let record = records[0];
    assert_eq!(record.labels, ["z-label", "a-label"]);
    assert_eq!(record.risk, Risk::High);
    assert_eq!(
        parsed.render(),
        file(2, &V2_RECORD.replace("z-label,a-label", "a-label,z-label"))
    );
}

#[test]
fn explanations_that_imitate_metadata_survive_both_versions() {
    for prose in METADATA_LOOKALIKES {
        let v1 = file(1, &V1_RECORD.replace("Explain the intent.", prose));
        let parsed = GlossFile::parse(&v1, "foo.gloss").unwrap();
        let records = parsed.records();
        let record = records[0];
        assert_eq!(record.explanation, prose, "v1 explanation was rewritten");
        assert!(record.labels.is_empty(), "v1 gained fabricated labels");
        assert_eq!(record.risk, Risk::NoRisk, "v1 gained a fabricated risk");
        assert_eq!(parsed.render(), v1);

        let v2 = file(2, &V2_RECORD.replace("Risky change.", prose));
        let parsed = GlossFile::parse(&v2, "foo.gloss").unwrap();
        let records = parsed.records();
        let record = records[0];
        assert_eq!(record.explanation, prose, "v2 explanation was rewritten");
        assert_eq!(record.labels, ["z-label", "a-label"]);
        assert_eq!(record.risk, Risk::High);
    }
}

/// Promoting the header must promote every row with it, so a file never
/// declares v2 while carrying rows a v2 reader would misparse.
#[test]
fn adding_a_labeled_record_promotes_every_row_and_stays_readable() {
    let input = file(
        1,
        &format!(
            "{}\n{}",
            V1_RECORD.replace("Explain the intent.", METADATA_LOOKALIKES[0]),
            V1_RECORD
                .replace("938ff9b78220", "938ff9b7822a")
                .replace("Explain the intent.", METADATA_LOOKALIKES[1]),
        ),
    );
    let mut parsed = GlossFile::parse(&input, "foo.gloss").unwrap();
    parsed.push_record(record(
        "0198f5cf-4807-7ac3-a42a-938ff9b78222",
        60,
        61,
        "2026-08-28T18:41:55Z",
        "sess_789",
        vec!["security".to_owned()],
        Risk::High,
        "New labeled record.",
    ));
    let rendered = parsed.render();
    assert!(rendered.starts_with("version: 2\n"), "{rendered}");

    let reparsed = GlossFile::parse(&rendered, "foo.gloss").unwrap();
    let records = reparsed.records();
    assert_eq!(records.len(), 3);
    assert_eq!(records[0].explanation, METADATA_LOOKALIKES[0]);
    assert_eq!(records[1].explanation, METADATA_LOOKALIKES[1]);
    assert_eq!(records[2].explanation, "New labeled record.");
    for record in &records[..2] {
        assert!(record.labels.is_empty());
        assert_eq!(record.risk, Risk::NoRisk);
    }
    assert_eq!(records[2].labels, ["security"]);
    assert_eq!(records[2].risk, Risk::High);
    assert_eq!(reparsed.render(), rendered, "promotion is not idempotent");
}

#[test]
fn row_layout_follows_the_declared_version() {
    assert_eq!(
        GlossFile::parse(&file(2, V1_RECORD), "foo.gloss").unwrap_err().code,
        ErrorCode::InvalidFormat
    );
    assert_eq!(
        GlossFile::parse(&file(1, V2_RECORD), "foo.gloss").unwrap().records()[0].explanation,
        "z-label,a-label high Risky change."
    );
}

#[test]
fn render_never_downgrades_the_declared_version() {
    let input = "version: 2\nupdated: 2026-08-28T18:42:11Z\neditor: codex\n\nfuture-record payload\n";
    let parsed = GlossFile::parse(input, "foo.gloss").unwrap();
    assert_eq!(parsed.version, 2);
    assert_eq!(parsed.render(), input);
}

#[test]
fn default_v2_fields_round_trip_without_downgrading() {
    let input = file(
        2,
        "0198f5cf-4807-7ac3-a42a-938ff9b78221 1:2 2026-08-28T18:41:54Z calvin codex sess_456 - none Default fields.",
    );
    let parsed = GlossFile::parse(&input, "foo.gloss").unwrap();
    let records = parsed.records();
    let record = records[0];
    assert!(record.labels.is_empty());
    assert_eq!(record.risk, Risk::NoRisk);
    assert_eq!(parsed.render(), input);
}

#[test]
fn rejects_invalid_v2_labels_and_risk() {
    for fields in [
        "duplicate,duplicate high Explanation.",
        "not_kebab high Explanation.",
        "valid-label,other critical Explanation.",
        "valid-label high",
    ] {
        assert_eq!(
            GlossFile::parse(
                &file(
                    2,
                    &format!(
                        "0198f5cf-4807-7ac3-a42a-938ff9b78221 1:2 2026-08-28T18:41:54Z calvin codex sess_456 {fields}"
                    )
                ),
                "foo.gloss",
            )
            .unwrap_err()
            .code,
            ErrorCode::InvalidFormat
        );
    }
}

#[test]
fn rejects_malformed_uuid_records_and_blank_body_lines() {
    let malformed = V1_RECORD.replacen("0198", "gggg", 1);
    assert_eq!(
        GlossFile::parse(&file(1, &malformed), "foo.gloss").unwrap_err().code,
        ErrorCode::InvalidUuid
    );
    assert_eq!(
        GlossFile::parse(&file(1, &format!("{V1_RECORD}\n\nfuture")), "foo.gloss")
            .unwrap_err()
            .code,
        ErrorCode::InvalidFormat
    );
}

/// Corrupt provenance must stay a loud parse error.
#[test]
fn rejects_corrupt_uuids_instead_of_filing_them_as_opaque() {
    for broken in [
        "0198f5cf-4807-7ac3-a42a-938ff9b7822",
        "0198f5cf-4807-7ac3-a42a-938ff9b782200",
        "0198f5cf-4807-7ac3-a42-938ff9b78220",
        "0198f5cg-4807-7ac3-a42a-938ff9b78220",
    ] {
        let input = file(1, &V1_RECORD.replace("0198f5cf-4807-7ac3-a42a-938ff9b78220", broken));
        assert_eq!(
            GlossFile::parse(&input, "foo.gloss").unwrap_err().code,
            ErrorCode::InvalidUuid,
            "{broken} was not rejected"
        );
    }
}

#[test]
fn still_round_trips_lines_that_are_not_record_shaped() {
    for opaque in ["future-record payload", "other-kind payload", "a-b-c-d 1:2 payload"] {
        let input = file(1, &format!("{opaque}\n{V1_RECORD}"));
        let parsed = GlossFile::parse(&input, "foo.gloss").unwrap();
        assert_eq!(parsed.records().len(), 1, "{opaque} was parsed as a record");
        assert_eq!(parsed.render(), input);
    }
}

#[test]
fn app_style_add_preserves_opaque_lines() {
    let input = file(1, &format!("future-record payload\n{V1_RECORD}"));
    let mut parsed = GlossFile::parse(&input, "foo.gloss").unwrap();
    parsed.push_record(record(
        "0198f5cf-4807-7ac3-a42a-938ff9b78222",
        60,
        61,
        "2026-08-28T18:41:55Z",
        "sess_789",
        Vec::new(),
        Risk::NoRisk,
        "Another edit.",
    ));
    let rendered = parsed.render();
    assert!(rendered.contains(&format!("future-record payload\n{V1_RECORD}\n")));
    assert!(rendered.ends_with("sess_789 Another edit.\n"));
}

#[test]
fn rendering_a_written_file_again_gives_the_same_text() {
    let input = file(
        2,
        "0198f5cf-4807-7ac3-a42a-938ff9b78221 1:2 2026-08-28T18:41:54.5Z calvin codex sess_456 b,a low   Trailing spaces.   ",
    );
    let parsed = GlossFile::parse(&input, "foo.gloss").unwrap();
    let rendered = parsed.render();
    assert_eq!(
        rendered,
        file(
            2,
            "0198f5cf-4807-7ac3-a42a-938ff9b78221 1:2 2026-08-28T18:41:54.500Z calvin codex sess_456 a,b low Trailing spaces."
        )
    );
    let reparsed = GlossFile::parse(&rendered, "foo.gloss").unwrap();
    assert_eq!(reparsed.render(), rendered);
    assert_eq!(reparsed.records()[0].labels, ["a", "b"]);
}

#[test]
fn an_empty_file_has_only_its_header() {
    let updated = Timestamp::parse("2026-08-28T18:42:11Z").unwrap();
    let empty = GlossFile::empty(updated, "codex");
    assert_eq!(empty.render(), "version: 1\nupdated: 2026-08-28T18:42:11Z\neditor: codex\n\n");
    let parsed = GlossFile::parse(&empty.render(), "foo.gloss").unwrap();
    assert_eq!(parsed.updated, updated);
    assert!(parsed.body.is_empty());
    assert_eq!(parsed.into_records().len(), 0);
}

#[test]
fn header_errors_name_what_is_missing() {
    let cases = [
        ("", "missing version header"),
        ("version 1\n", "expected `version: <number>`"),
        ("version: x\n", "version must be a number"),
        ("version: 1\n", "missing updated header"),
        ("version: 1\nupdated: soon\n", "updated must be an RFC 3339 timestamp"),
        ("version: 1\nupdated: 2026-08-28T18:42:11Z\neditor: two words\n", "editor must be one non-empty token"),
        ("version: 1\nupdated: 2026-08-28T18:42:11Z\neditor: codex\nx: y\n", "header must be followed by a blank line"),
    ];
    for (input, message) in cases {
        let error = GlossFile::parse(input, "a.gloss").unwrap_err();
        assert_eq!(error.code, ErrorCode::InvalidFormat, "{input:?}");
        assert_eq!(error.message, message, "{input:?}");
        assert_eq!(error.file.as_deref(), Some("a.gloss"));
    }
    let bad_time = file(1, &V1_RECORD.replace("2026-08-28T18:41:53Z", "later"));
    assert_eq!(
        GlossFile::parse(&bad_time, "a.gloss").unwrap_err().message,
        "invalid record timestamp at line 5"
    );
    let bad_range = file(1, &V1_RECORD.replace("42:58", "58:42"));
    let error = GlossFile::parse(&bad_range, "a.gloss").unwrap_err();
    assert_eq!(error.code, ErrorCode::InvalidRange);
    assert_eq!(error.message, "invalid line range 58:42");
}

#[test]
fn line_ranges() {
    assert_eq!(LineRange::parse("3:9").unwrap(), LineRange { start: 3, end: 9 });
    assert_eq!(LineRange::parse("0:9").unwrap_err().code, ErrorCode::InvalidRange);
    assert_eq!(LineRange::parse("9").unwrap_err().message, "invalid line range 9");
    assert_eq!(LineRange::parse("1:x").unwrap_err().code, ErrorCode::InvalidRange);
    let a = LineRange::new(3, 5).unwrap();
    assert!(a.overlaps(&LineRange::new(5, 9).unwrap()));
    assert!(!a.overlaps(&LineRange::new(6, 9).unwrap()));
    assert_eq!(a.to_text(), "3:5");
    assert_eq!(Risk::Medium.as_str(), "medium");
}
