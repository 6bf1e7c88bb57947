//! Stable error codes and the error value every fallible operation returns.

use vstd::prelude::*;
use crate::text::{chars_of, push_str, push_all, replace_char, string_of};

verus! {

/// Stable, machine-readable failure codes.
#[derive(Clone, Copy, Debug, PartialEq, Eq, Structural)]
pub enum ErrorCode {
    InvalidFormat,
    InvalidUuid,
    DuplicateEditId,
    MissingSource,
    MissingGloss,
    OrphanedGloss,
    InvalidRange,
    GlossOutsideHunk,
    StaleGloss,
    AmbiguousRepair,
    OutdatedHeader,
    GitError,
    IoError,
}

/// The snake_case name of each code.
pub open spec fn code_name(code: ErrorCode) -> Seq<char> {
    match code {
        ErrorCode::InvalidFormat => "invalid_format"@,
        ErrorCode::InvalidUuid => "invalid_uuid"@,
        ErrorCode::DuplicateEditId => "duplicate_edit_id"@,
        ErrorCode::MissingSource => "missing_source"@,
        ErrorCode::MissingGloss => "missing_gloss"@,
        ErrorCode::OrphanedGloss => "orphaned_gloss"@,
        ErrorCode::InvalidRange => "invalid_range"@,
        ErrorCode::GlossOutsideHunk => "gloss_outside_hunk"@,
        ErrorCode::StaleGloss => "stale_gloss"@,
        ErrorCode::AmbiguousRepair => "ambiguous_repair"@,
        ErrorCode::OutdatedHeader => "outdated_header"@,
        ErrorCode::GitError => "git_error"@,
        ErrorCode::IoError => "io_error"@,
    }
}

impl ErrorCode {
    pub fn as_str(self) -> (s: &'static str)
        ensures
            s@ == code_name(self),
    {
        match self {
            ErrorCode::InvalidFormat => "invalid_format",
            ErrorCode::InvalidUuid => "invalid_uuid",
            ErrorCode::DuplicateEditId => "duplicate_edit_id",
            ErrorCode::MissingSource => "missing_source",
            ErrorCode::MissingGloss => "missing_gloss",
            ErrorCode::OrphanedGloss => "orphaned_gloss",
            ErrorCode::InvalidRange => "invalid_range",
            ErrorCode::GlossOutsideHunk => "gloss_outside_hunk",
            ErrorCode::StaleGloss => "stale_gloss",
            ErrorCode::AmbiguousRepair => "ambiguous_repair",
            ErrorCode::OutdatedHeader => "outdated_header",
            ErrorCode::GitError => "git_error",
            ErrorCode::IoError => "io_error",
        }
    }
}

/// A failure with its code, message and, where known, the file, edit and range
/// it concerns.
#[derive(Debug)]
pub struct GlossError {
    pub code: ErrorCode,
    pub message: String,
    pub file: Option<String>,
    pub edit_id: Option<String>,
    pub range: Option<[u32; 2]>,
}

/// What a `GlossError` holds, as mathematical values.
pub struct ErrorView {
    pub code: ErrorCode,
    pub message: Seq<char>,
    pub file: Option<Seq<char>>,
    pub edit_id: Option<Seq<char>>,
    pub range: Option<(u32, u32)>,
}

impl View for GlossError {
    type V = ErrorView;

    open spec fn view(&self) -> ErrorView {
        ErrorView {
            code: self.code,
            message: self.message@,
            file: match self.file {
                Some(f) => Some(f@),
                None => None,
            },
            edit_id: match self.edit_id {
                Some(e) => Some(e@),
                None => None,
            },
            range: match self.range {
                Some(r) => Some((r@[0], r@[1])),
                None => None,
            },
        }
    }
}

/// A path as errors report it: with `/` separators.
pub open spec fn display_path(path: Seq<char>) -> Seq<char> {
    replace_char(path, '\\', '/')
}

/// An error with only a code and a message.
pub open spec fn error_of(code: ErrorCode, message: Seq<char>) -> ErrorView {
    ErrorView { code, message, file: None, edit_id: None, range: None }
}

/// `e` with its file set to `path`.
pub open spec fn with_file(e: ErrorView, path: Seq<char>) -> ErrorView {
    ErrorView { file: Some(display_path(path)), ..e }
}

/// `e` with its edit ID and range set.
pub open spec fn with_edit(e: ErrorView, id: Seq<char>, start: u32, end: u32) -> ErrorView {
    ErrorView { edit_id: Some(id), range: Some((start, end)), ..e }
}

/// The `InvalidFormat` error for a file.
pub open spec fn invalid_in(path: Seq<char>, message: Seq<char>) -> ErrorView {
    with_file(error_of(ErrorCode::InvalidFormat, message), path)
}

/// `path` with every `\` turned into `/`.
pub fn display_path_of(path: &str) -> (s: String)
    ensures
        s@ == display_path(path@),
{
    let chars = chars_of(path);
    let mut out: Vec<char> = Vec::new();
    let mut i: usize = 0;
    while i < chars.len()
        invariant
            i <= chars@.len(),
            chars@ == path@,
            out@ == replace_char(chars@.subrange(0, i as int), '\\', '/'),
        decreases chars@.len() - i,
    {
        let c = chars[i];
        out.push(if c == '\\' { '/' } else { c });
        i = i + 1;
        proof {
            assert(out@ =~= replace_char(chars@.subrange(0, i as int), '\\', '/'));
        }
    }
    proof {
        assert(chars@.subrange(0, chars@.len() as int) =~= chars@);
    }
    string_of(&out)
}

impl GlossError {
    pub fn new(code: ErrorCode, message: String) -> (e: GlossError)
        ensures
            e@ == error_of(code, message@),
    {
        GlossError { code, message, file: None, edit_id: None, range: None }
    }

    /// The same error, about the file at `path`.
    pub fn file(self, path: &str) -> (e: GlossError)
        ensures
            e@ == with_file(self@, path@),
    {
        let mut e = self;
        e.file = Some(display_path_of(path));
        e
    }

    /// The same error, about the edit `id` and the range `start:end`.
    pub fn edit(self, id: &str, start: u32, end: u32) -> (e: GlossError)
        ensures
            e@ == with_edit(self@, id@, start, end),
    {
        let mut e = self;
        e.edit_id = Some(string_of(&chars_of(id)));
        e.range = Some([start, end]);
        proof {
            assert(e@.range == Some((start, end)));
        }
        e
    }

    /// An `IoError` that an operation on `path` reported with `message`.
    pub fn io(message: &str, path: &str) -> (e: GlossError)
        ensures
            e@ == with_file(error_of(ErrorCode::IoError, message@), path@),
    {
        GlossError::new(ErrorCode::IoError, string_of(&chars_of(message))).file(path)
    }
}

/// How an error is printed for people: `<file>: <code>: <message>`, without
/// the file part when no file is known.
pub open spec fn error_line(e: ErrorView) -> Seq<char> {
    let prefix = match e.file {
        Some(f) => f + ": "@,
        None => Seq::<char>::empty(),
    };
    prefix + code_name(e.code) + ": "@ + e.message
}

pub fn format_error(error: &GlossError) -> (s: String)
    ensures
        s@ == error_line(error@),
{
    let mut out: Vec<char> = Vec::new();
    match &error.file {
        Some(f) => {
            push_str(&mut out, f.as_str());
            push_str(&mut out, ": ");
        },
        None => {},
    }
    push_str(&mut out, error.code.as_str());
    push_str(&mut out, ": ");
    push_str(&mut out, error.message.as_str());
    proof {
        assert(out@ =~= error_line(error@));
    }
    string_of(&out)
}

} // verus!
