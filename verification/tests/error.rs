use gloss::error::{format_error, ErrorCode, GlossError};

#[test]
fn error_codes_have_stable_names() {
    assert_eq!(ErrorCode::GlossOutsideHunk.as_str(), "gloss_outside_hunk");
    assert_eq!(ErrorCode::StaleGloss.as_str(), "stale_gloss");
    assert_eq!(ErrorCode::OutdatedHeader.as_str(), "outdated_header");
    assert_eq!(ErrorCode::InvalidUuid.as_str(), "invalid_uuid");
    assert_eq!(ErrorCode::IoError.as_str(), "io_error");
}

#[test]
fn errors_carry_file_edit_and_range() {
    let error = GlossError::new(ErrorCode::InvalidRange, "bad".to_owned())
        .file("src\\a.rs")
        .edit("id", 3, 4);
    assert_eq!(error.file.as_deref(), Some("src/a.rs"));
    assert_eq!(error.edit_id.as_deref(), Some("id"));
    assert_eq!(error.range, Some([3, 4]));
    assert_eq!(format_error(&error), "src/a.rs: invalid_range: bad");
    let plain = GlossError::new(ErrorCode::GitError, "no repo".to_owned());
    assert_eq!(format_error(&plain), "git_error: no repo");
    let io = GlossError::io("denied", "x");
    assert_eq!(io.code, ErrorCode::IoError);
    assert_eq!(io.message, "denied");
}
