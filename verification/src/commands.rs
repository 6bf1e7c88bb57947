//! The decisions of `add`, `update`, `repair` and `status`: the record that
//! `add` appends, how `update` moves ranges and bumps headers, and the text
//! the commands report. The caller reads files, asks Git and the clock, and
//! writes what these functions return.

use vstd::prelude::*;
use vstd::utf8::{decode_utf8, valid_utf8};
use chrono::{DateTime, TimeDelta};
use crate::checks::{remap_range, remap_spec, touches_hunk, touches_hunk_spec, hunk_old_fits};
use crate::edit_id::{edit_id_text, uuid_text};
use crate::error::{display_path, display_path_of, error_of, with_edit, with_file, ErrorCode, ErrorView, GlossError};
use crate::format::{
    lines_view, range_text, result_view, FileView, GlossFile, GlossLine, GlossRecord, LineRange,
    LineView, RecordView, Risk,
};
use crate::git::{
    break_count_of, diff_hunks_between, hunk_fits, hunk_new_range, hunks_of_ops, line_bound, line_diff_ops, lossy_text,
    output_text, ChangeScope,
    DiffHunk, LifecycleChange, LifecycleView,
};
use crate::harness::{scope_name, SkillScope};
use crate::state::{
    file_entry, hash, hex_text, record_file_spec, remove_file_spec, sha256_digest, DerivedState,
    FileState, FileStateView, StateView,
};
use crate::checks::header_errors;
use crate::text::{
    chars_of, dec, eq_chars, push_all, push_dec, push_str, slice_of, string_of, trim, trim_chars,
};
use crate::time::{plain_instant, Timestamp};

verus! {

/// The instant one nanosecond after `secs`/`nanos`, as chrono adds it, if
/// chrono has both instants.
pub uninterp spec fn nanosecond_after(secs: i64, nanos: u32) -> Option<(i64, u32)>;

/// `DateTime::from_timestamp(secs, nanos)` then `checked_add_signed` of one
/// nanosecond, read back with `timestamp()` and `timestamp_subsec_nanos()`.
/// Claimed: the result is the named one; for an instant in the years 0 to
/// 9999 that is not a leap second, it is the next nanosecond, carried into the
/// next second after 999 999 999.
#[verifier::external_body]
fn add_nanosecond(secs: i64, nanos: u32) -> (r: Option<(i64, u32)>)
    ensures
        r == nanosecond_after(secs, nanos),
        plain_instant(Timestamp { secs, nanos }) ==> r == Some(
            if nanos + 1 < 1_000_000_000 {
                (secs, (nanos + 1) as u32)
            } else {
                ((secs + 1) as i64, 0u32)
            },
        ),
{
    match DateTime::from_timestamp(secs, nanos) {
        Some(d) => match d.checked_add_signed(TimeDelta::nanoseconds(1)) {
            Some(n) => Some((n.timestamp(), n.timestamp_subsec_nanos())),
            None => None,
        },
        None => None,
    }
}

/// Whether `a` comes before `b`.
pub open spec fn before(a: Timestamp, b: Timestamp) -> bool {
    a.secs < b.secs || (a.secs == b.secs && a.nanos < b.nanos)
}

/// A header instant strictly after `previous`: the clock reading `now`, or
/// one nanosecond after `previous` when the clock is not past it (`now` when
/// chrono has no instant after `previous`).
pub open spec fn fresh_spec(now: Timestamp, previous: Timestamp) -> Timestamp {
    match nanosecond_after(previous.secs, previous.nanos) {
        Some((secs, nanos)) => {
            let next = Timestamp { secs, nanos };
            if before(now, next) {
                next
            } else {
                now
            }
        },
        None => now,
    }
}

/// The instant a rewritten header gets: later than the one it replaces.
pub fn fresh_timestamp(now: Timestamp, previous: Timestamp) -> (t: Timestamp)
    ensures
        t == fresh_spec(now, previous),
        plain_instant(previous) ==> before(previous, t),
{
    match add_nanosecond(previous.secs, previous.nanos) {
        Some((secs, nanos)) => {
            let next = Timestamp { secs, nanos };
            if now.is_before(&next) {
                next
            } else {
                now
            }
        },
        None => now,
    }
}

/// The error when a range to explain lies in no edit hunk.
pub open spec fn outside_hunk_error(source: Seq<char>, range: LineRange) -> ErrorView {
    with_edit(
        with_file(
            error_of(
                ErrorCode::GlossOutsideHunk,
                "range does not overlap a working-tree edit hunk"@,
            ),
            source,
        ),
        ""@,
        range.start,
        range.end,
    )
}

/// `add` explains only lines that a working-tree hunk touches.
pub fn require_hunk(range: &LineRange, hunks: &Vec<DiffHunk>, source: &str) -> (r: Result<
    (),
    GlossError,
>)
    requires
        forall|i: int| 0 <= i < hunks@.len() ==> hunk_fits(#[trigger] hunks@[i]),
    ensures
        result_view(r) == (if touches_hunk_spec(*range, hunks@) {
            Ok::<(), ErrorView>(())
        } else {
            Err(outside_hunk_error(source@, *range))
        }),
{
    if touches_hunk(range, hunks) {
        Ok(())
    } else {
        Err(
            GlossError::new(
                ErrorCode::GlossOutsideHunk,
                "range does not overlap a working-tree edit hunk".to_owned(),
            ).file(source).edit("", range.start, range.end),
        )
    }
}

/// The file after `add`: the new record appended, with no labels and no
/// risk, its explanation trimmed, and the header stamped with the record's
/// instant and agent; an error when the explanation is blank.
pub open spec fn add_spec(
    doc: FileView,
    edit_id: u128,
    range: LineRange,
    now: Timestamp,
    user: Seq<char>,
    agent: Seq<char>,
    session: Seq<char>,
    explanation: Seq<char>,
    source: Seq<char>,
) -> Result<FileView, ErrorView> {
    if trim(explanation).len() == 0 {
        Err(with_file(error_of(ErrorCode::InvalidFormat, "explanation cannot be empty"@), source))
    } else {
        Ok(
            FileView {
                updated: now,
                editor: agent,
                body: doc.body.push(
                    LineView::Record(
                        RecordView {
                            edit_id,
                            range,
                            timestamp: now,
                            user,
                            agent,
                            session_id: session,
                            labels: seq![],
                            risk: Risk::NoRisk,
                            explanation: trim(explanation),
                        },
                    ),
                ),
                ..doc
            },
        )
    }
}

/// Appends a new record to a gloss file, as `add` does; the file is left as
/// it was when the explanation is blank.
pub fn add_record(
    document: &mut GlossFile,
    edit_id: u128,
    range: LineRange,
    now: Timestamp,
    user: String,
    agent: String,
    session: String,
    explanation: &str,
    source: &str,
) -> (r: Result<(), GlossError>)
    ensures
        match r {
            Ok(()) => add_spec(
                old(document)@,
                edit_id,
                range,
                now,
                user@,
                agent@,
                session@,
                explanation@,
                source@,
            ) == Ok::<FileView, ErrorView>(final(document)@),
            Err(e) => add_spec(
                old(document)@,
                edit_id,
                range,
                now,
                user@,
                agent@,
                session@,
                explanation@,
                source@,
            ) == Err::<FileView, ErrorView>(e@) && final(document)@ == old(document)@,
        },
{
    let text = trim_chars(&chars_of(explanation));
    if text.len() == 0 {
        return Err(
            GlossError::new(ErrorCode::InvalidFormat, "explanation cannot be empty".to_owned()).file(
                source,
            ),
        );
    }
    let editor = string_of(&chars_of(agent.as_str()));
    let record = GlossRecord {
        edit_id,
        range,
        timestamp: now,
        user,
        agent,
        session_id: session,
        labels: Vec::new(),
        risk: Risk::NoRisk,
        explanation: string_of(&text),
    };
    proof {
        assert(crate::format::strings_view(record.labels@) =~= Seq::<Seq<char>>::empty());
    }
    document.updated = now;
    document.editor = editor;
    document.push_record(record);
    Ok(())
}

/// What `add` reports: `Added <id> to <source> at <start>:<end>.`
pub open spec fn added_message(edit_id: u128, source: Seq<char>, range: LineRange) -> Seq<char> {
    "Added "@ + uuid_text(edit_id) + " to "@ + display_path(source) + " at "@ + range_text(range)
        + "."@
}

pub fn added_message_of(edit_id: u128, source: &str, range: &LineRange) -> (s: String)
    ensures
        s@ == added_message(edit_id, source@, *range),
{
    let mut m = chars_of("Added ");
    push_str(&mut m, edit_id_text(edit_id).as_str());
    push_str(&mut m, " to ");
    push_str(&mut m, display_path_of(source).as_str());
    push_str(&mut m, " at ");
    push_str(&mut m, range.to_text().as_str());
    push_str(&mut m, ".");
    string_of(&m)
}

/// Whether a source file changed since its header was last written, as far
/// as the derived state tells (`None` when it knows nothing of the file).
pub open spec fn source_changed_spec(known: Option<FileStateView>, source: Seq<u8>) -> Option<bool> {
    match known {
        Some(f) => Some(f.source_hash != hex_text(sha256_digest(source))),
        None => None,
    }
}

pub fn source_changed(known: Option<&FileState>, source: &[u8]) -> (r: Option<bool>)
    ensures
        r == source_changed_spec(crate::checks::state_opt(known), source@),
{
    match known {
        Some(f) => {
            let current = hash(source);
            Some(!eq_chars(&chars_of(f.source_hash.as_str()), &chars_of(current.as_str())))
        },
        None => None,
    }
}

/// The body with every record's range moved through the hunks; the first
/// record that cannot move gives the error, about its gloss and its edit.
pub open spec fn remap_body_spec(body: Seq<LineView>, hunks: Seq<DiffHunk>, gloss: Seq<char>) -> Result<
    Seq<LineView>,
    ErrorView,
>
    decreases body.len(),
{
    if body.len() == 0 {
        Ok(seq![])
    } else {
        match remap_body_spec(body.drop_last(), hunks, gloss) {
            Err(e) => Err(e),
            Ok(prev) => match body.last() {
                LineView::Opaque(s) => Ok(prev.push(LineView::Opaque(s))),
                LineView::Record(r) => match remap_spec(r.range, hunks) {
                    Ok(range) => Ok(prev.push(LineView::Record(RecordView { range, ..r }))),
                    Err(e) => Err(
                        with_edit(
                            with_file(e, gloss),
                            uuid_text(r.edit_id),
                            r.range.start,
                            r.range.end,
                        ),
                    ),
                },
            },
        }
    }
}

/// The body after `update` moves ranges from the old source to the current
/// one: unchanged when the texts are equal, else moved through the hunks of
/// their line diff.
pub open spec fn update_body_spec(
    body: Seq<LineView>,
    old_source: Seq<char>,
    current_source: Seq<char>,
    gloss: Seq<char>,
) -> Result<Seq<LineView>, ErrorView> {
    if old_source == current_source {
        Ok(body)
    } else {
        remap_body_spec(body, hunks_of_ops(line_diff_ops(old_source, current_source)), gloss)
    }
}

/// A body line with its range replaced, when it is a record.
pub open spec fn with_range(l: LineView, range: LineRange) -> LineView {
    match l {
        LineView::Record(r) => LineView::Record(RecordView { range, ..r }),
        LineView::Opaque(s) => LineView::Opaque(s),
    }
}

pub open spec fn moved_body(body: Seq<LineView>, moved: Seq<LineRange>) -> Seq<LineView> {
    Seq::new(body.len(), |j: int| with_range(body[j], moved[j]))
}

proof fn lemma_remap_body_err(body: Seq<LineView>, k: int, hunks: Seq<DiffHunk>, gloss: Seq<char>)
    requires
        0 <= k <= body.len(),
        remap_body_spec(body.take(k), hunks, gloss) is Err,
    ensures
        remap_body_spec(body, hunks, gloss) == remap_body_spec(body.take(k), hunks, gloss),
    decreases body.len() - k,
{
    if k < body.len() {
        assert(body.take(k + 1).drop_last() =~= body.take(k));
        lemma_remap_body_err(body, k + 1, hunks, gloss);
    } else {
        assert(body.take(k) =~= body);
    }
}

/// Moves the ranges of a gloss file's records from the old source text to
/// the current one, as `update` does; the file is left as it was on error.
pub fn remap_document(
    document: &mut GlossFile,
    old_source: &str,
    current_source: &str,
    gloss: &str,
) -> (r: Result<(), GlossError>)
    requires
        line_bound(old_source@) < u32::MAX,
        line_bound(current_source@) < u32::MAX,
    ensures
        match r {
            Ok(()) => update_body_spec(old(document)@.body, old_source@, current_source@, gloss@)
                == Ok::<Seq<LineView>, ErrorView>(final(document)@.body) && final(document)@ == (
            FileView { body: final(document)@.body, ..old(document)@ }),
            Err(e) => update_body_spec(old(document)@.body, old_source@, current_source@, gloss@)
                == Err::<Seq<LineView>, ErrorView>(e@) && final(document)@ == old(document)@,
        },
{
    if eq_chars(&chars_of(old_source), &chars_of(current_source)) {
        return Ok(());
    }
    let hunks = diff_hunks_between(old_source, current_source);
    proof {
        assert forall|i: int| 0 <= i < hunks@.len() implies hunk_old_fits(#[trigger] hunks@[i]) by {}
    }
    let ghost bv = lines_view(document.body@);
    let mut moved: Vec<LineRange> = Vec::new();
    let mut i: usize = 0;
    proof {
        assert(bv.take(0) =~= Seq::<LineView>::empty());
        assert(moved_body(bv.take(0), moved@) =~= Seq::<LineView>::empty());
    }
    while i < document.body.len()
        invariant
            bv == lines_view(document.body@),
            *document == *old(document),
            old_source@ != current_source@,
            hunks@ == hunks_of_ops(line_diff_ops(old_source@, current_source@)),
            forall|j: int| 0 <= j < hunks@.len() ==> hunk_old_fits(#[trigger] hunks@[j]),
            i <= document.body@.len(),
            moved@.len() == i,
            remap_body_spec(bv.take(i as int), hunks@, gloss@) == Ok::<Seq<LineView>, ErrorView>(
                moved_body(bv.take(i as int), moved@),
            ),
        decreases document.body@.len() - i,
    {
        proof {
            assert(bv.take(i + 1).drop_last() =~= bv.take(i as int));
            assert(bv.take(i + 1).last() == bv[i as int]);
            assert(bv[i as int] == document.body@[i as int]@);
        }
        let ghost prev = moved_body(bv.take(i as int), moved@);
        match &document.body[i] {
            GlossLine::Record(record) => {
                match remap_range(&record.range, &hunks) {
                    Ok(range) => {
                        moved.push(range);
                    },
                    Err(e) => {
                        let id = edit_id_text(record.edit_id);
                        let err = e.file(gloss).edit(id.as_str(), record.range.start, record.range.end);
                        proof {
                            assert(remap_spec(record.range, hunks@) == Err::<LineRange, ErrorView>(e@));
                            assert(bv[i as int] == LineView::Record(record@));
                            assert(remap_body_spec(bv.take(i + 1), hunks@, gloss@) == Err::<
                                Seq<LineView>,
                                ErrorView,
                            >(err@));
                            lemma_remap_body_err(bv, i + 1, hunks@, gloss@);
                        }
                        return Err(err);
                    },
                }
            },
            GlossLine::Opaque(_) => {
                moved.push(LineRange { start: 0, end: 0 });
            },
        }
        proof {
            assert(moved_body(bv.take(i + 1), moved@) =~= prev.push(
                with_range(bv[i as int], moved@[i as int]),
            ));
        }
        i = i + 1;
    }
    proof {
        assert(bv.take(bv.len() as int) =~= bv);
    }
    let mut old_lines: Vec<GlossLine> = Vec::new();
    std::mem::swap(&mut old_lines, &mut document.body);
    let mut fresh: Vec<GlossLine> = Vec::new();
    let ghost mut taken: int = 0;
    while old_lines.len() > 0
        invariant
            0 <= taken <= bv.len(),
            moved@.len() == bv.len(),
            lines_view(old_lines@) == bv.skip(taken),
            lines_view(fresh@) == moved_body(bv, moved@).take(taken),
        decreases old_lines@.len(),
    {
        let ghost before = fresh@;
        let ghost rest = old_lines@;
        proof {
            assert(lines_view(rest).len() == rest.len());
            assert(taken < bv.len());
        }
        let line = old_lines.remove(0);
        proof {
            assert(old_lines@ =~= rest.subrange(1, rest.len() as int));
            assert forall|j: int| 0 <= j < old_lines@.len() implies lines_view(old_lines@)[j]
                == bv.skip(taken + 1)[j] by {
                assert(lines_view(old_lines@)[j] == old_lines@[j]@);
                assert(old_lines@[j] == rest[j + 1]);
                assert(lines_view(rest)[j + 1] == rest[j + 1]@);
                assert(bv.skip(taken)[j + 1] == bv[taken + 1 + j]);
            }
            assert(lines_view(rest)[0] == line@);
            assert(bv.skip(taken)[0] == bv[taken]);
            assert(lines_view(old_lines@) =~= bv.skip(taken + 1));
        }
        proof {
            assert(fresh@.len() == taken) by {
                assert(lines_view(fresh@).len() == fresh@.len());
            }
        }
        let updated = match line {
            GlossLine::Record(record) => {
                let mut record = record;
                record.range = moved[fresh.len()];
                GlossLine::Record(record)
            },
            GlossLine::Opaque(s) => GlossLine::Opaque(s),
        };
        proof {
            assert(fresh@.len() == taken) by {
                assert(lines_view(fresh@).len() == fresh@.len());
            }
            assert(updated@ == with_range(bv[taken], moved@[taken]));
        }
        fresh.push(updated);
        proof {
            assert(lines_view(fresh@) =~= lines_view(before).push(updated@));
            assert(moved_body(bv, moved@).take(taken + 1) =~= moved_body(bv, moved@).take(taken).push(
                with_range(bv[taken], moved@[taken]),
            ));
            taken = taken + 1;
        }
    }
    proof {
        assert(lines_view(old_lines@).len() == old_lines@.len());
        assert(taken == bv.len());
        assert(moved_body(bv, moved@).take(taken) =~= moved_body(bv, moved@));
    }
    document.body = fresh;
    Ok(())
}


/// `s` for every count but one.
pub open spec fn plural_spec(n: nat) -> Seq<char> {
    if n == 1 {
        ""@
    } else {
        "s"@
    }
}

/// The source text that `update` moves ranges from: the contents recorded
/// when the header was last written, when they were kept and are UTF-8, else
/// the source at `HEAD`.
pub open spec fn previous_source_spec(snapshot: Option<Seq<u8>>, head: Option<Seq<char>>) -> Option<
    Seq<char>,
> {
    match snapshot {
        Some(b) => if valid_utf8(b) {
            Some(decode_utf8(b))
        } else {
            head
        },
        None => head,
    }
}

pub fn previous_source(snapshot: Option<&[u8]>, head: Option<String>) -> (r: Option<String>)
    ensures
        option_text(r) == previous_source_spec(crate::checks::bytes_opt(snapshot), option_text(head)),
{
    match snapshot {
        Some(b) => match crate::checks::utf8_text(b) {
            Some(s) => Some(s),
            None => head,
        },
        None => head,
    }
}

pub open spec fn option_text(o: Option<String>) -> Option<Seq<char>> {
    match o {
        Some(s) => Some(s@),
        None => None,
    }
}

/// What `update` does about a source file that moved or went away.
#[derive(Debug)]
pub enum LifecycleStep {
    /// The moved source had no gloss: nothing to do.
    Keep,
    /// Move the gloss from `from` to `to`, along with its source.
    Move { from: String, to: String },
    /// Delete the gloss of the deleted source.
    Delete { gloss: String },
    /// The deleted source had no gloss.
    Forget,
}

pub enum StepView {
    Keep,
    Move { from: Seq<char>, to: Seq<char> },
    Delete { gloss: Seq<char> },
    Forget,
}

impl View for LifecycleStep {
    type V = StepView;

    open spec fn view(&self) -> StepView {
        match self {
            LifecycleStep::Keep => StepView::Keep,
            LifecycleStep::Move { from, to } => StepView::Move { from: from@, to: to@ },
            LifecycleStep::Delete { gloss } => StepView::Delete { gloss: gloss@ },
            LifecycleStep::Forget => StepView::Forget,
        }
    }
}

/// The step for a change, given whether the gloss of the old path (or of the
/// deleted path) exists and whether that of the new path does: a moved
/// source takes its gloss along unless a gloss is already at the new place;
/// a deleted source takes its gloss with it. A path without a gloss path
/// gives its error.
pub open spec fn lifecycle_step_spec(change: LifecycleView, old_exists: bool, new_exists: bool) -> Result<
    StepView,
    ErrorView,
> {
    match change {
        LifecycleView::Rename { from, to } => match crate::paths::gloss_path_spec(from) {
            Err(e) => Err(e),
            Ok(old_gloss) => match crate::paths::gloss_path_spec(to) {
                Err(e) => Err(e),
                Ok(new_gloss) => if !old_exists {
                    Ok(StepView::Keep)
                } else if new_exists {
                    Err(
                        with_file(
                            error_of(
                                ErrorCode::AmbiguousRepair,
                                "both old and new gloss paths exist for a source rename"@,
                            ),
                            new_gloss,
                        ),
                    )
                } else {
                    Ok(StepView::Move { from: old_gloss, to: new_gloss })
                },
            },
        },
        LifecycleView::Delete { path } => match crate::paths::gloss_path_spec(path) {
            Err(e) => Err(e),
            Ok(gloss) => if old_exists {
                Ok(StepView::Delete { gloss })
            } else {
                Ok(StepView::Forget)
            },
        },
    }
}

/// The state after a step: a moved or deleted source is forgotten.
pub open spec fn lifecycle_state_spec(st: StateView, change: LifecycleView, step: StepView) -> StateView {
    match step {
        StepView::Keep => st,
        _ => match change {
            LifecycleView::Rename { from, to } => remove_file_spec(st, from),
            LifecycleView::Delete { path } => remove_file_spec(st, path),
        },
    }
}

/// Decides what `update` does about a moved or deleted source, and forgets
/// the source in the derived state when its gloss moves or goes; on error
/// the state is left as it was.
pub fn lifecycle_step(
    change: &LifecycleChange,
    old_exists: bool,
    new_exists: bool,
    state: &mut DerivedState,
) -> (r: Result<LifecycleStep, GlossError>)
    requires
        old(state).wf(),
    ensures
        final(state).wf(),
        match r {
            Ok(step) => lifecycle_step_spec(change@, old_exists, new_exists) == Ok::<
                StepView,
                ErrorView,
            >(step@) && final(state)@ == lifecycle_state_spec(old(state)@, change@, step@),
            Err(e) => lifecycle_step_spec(change@, old_exists, new_exists) == Err::<
                StepView,
                ErrorView,
            >(e@) && final(state)@ == old(state)@,
        },
{
    match change {
        LifecycleChange::Rename { from, to } => {
            let old_gloss = crate::paths::gloss_path(from.as_str())?;
            let new_gloss = crate::paths::gloss_path(to.as_str())?;
            if !old_exists {
                return Ok(LifecycleStep::Keep);
            }
            if new_exists {
                return Err(
                    GlossError::new(
                        ErrorCode::AmbiguousRepair,
                        "both old and new gloss paths exist for a source rename".to_owned(),
                    ).file(new_gloss.as_str()),
                );
            }
            state.remove_file(from.as_str());
            Ok(LifecycleStep::Move { from: old_gloss, to: new_gloss })
        },
        LifecycleChange::Delete { path } => {
            let gloss = crate::paths::gloss_path(path.as_str())?;
            state.remove_file(path.as_str());
            if old_exists {
                Ok(LifecycleStep::Delete { gloss })
            } else {
                Ok(LifecycleStep::Forget)
            }
        },
    }
}

/// The gloss that `update` creates for a changed path, if any: none for a
/// path inside a `.gloss` directory, outside the selection, that is not a
/// file, or whose gloss exists; else its gloss path.
pub open spec fn new_gloss_spec(
    source: Seq<char>,
    selection: Seq<Seq<char>>,
    is_file: bool,
    gloss_exists: bool,
) -> Result<Option<Seq<char>>, ErrorView> {
    if crate::paths::in_gloss_dir(source) || !crate::paths::selected_spec(source, selection)
        || !is_file {
        Ok(None)
    } else {
        match crate::paths::gloss_path_spec(source) {
            Err(e) => Err(e),
            Ok(g) => if gloss_exists {
                Ok(None)
            } else {
                Ok(Some(g))
            },
        }
    }
}

/// Which gloss `update` creates, header only, for a changed path.
pub fn new_gloss(source: &str, selection: &Vec<String>, is_file: bool, gloss_exists: bool) -> (r:
    Result<Option<String>, GlossError>)
    ensures
        match r {
            Ok(g) => new_gloss_spec(source@, crate::paths::texts(selection@), is_file, gloss_exists)
                == Ok::<Option<Seq<char>>, ErrorView>(option_text(g)),
            Err(e) => new_gloss_spec(source@, crate::paths::texts(selection@), is_file, gloss_exists)
                == Err::<Option<Seq<char>>, ErrorView>(e@),
        },
{
    if crate::paths::ignored_source(source) || !crate::paths::selected(source, selection)
        || !is_file {
        return Ok(None);
    }
    let gloss = crate::paths::gloss_path(source)?;
    if gloss_exists {
        Ok(None)
    } else {
        Ok(Some(gloss))
    }
}

/// The error for a source with more lines than line numbers can count.
pub open spec fn too_large_error(gloss: Seq<char>) -> ErrorView {
    with_file(
        error_of(ErrorCode::StaleGloss, "source has too many lines to remap its glosses"@),
        gloss,
    )
}

/// What `update` does with one gloss whose source it read: when the source
/// did not change, it records the header's instant for the source contents;
/// when it did, it moves the ranges from the old source text (when there is
/// one) to the current one, stamps the header with a fresh instant and the
/// editor, and records that instant. The result is the new gloss, the new
/// state, and whether the gloss is to be written.
pub open spec fn maintain_spec(
    doc: FileView,
    st: StateView,
    source: Seq<char>,
    gloss: Seq<char>,
    bytes: Seq<u8>,
    changed: bool,
    old_source: Option<Seq<char>>,
    now: Timestamp,
    editor: Seq<char>,
) -> Result<(FileView, StateView, bool), ErrorView> {
    if !changed {
        Ok((doc, record_file_spec(st, source, bytes, doc.updated), false))
    } else {
        let moved = match old_source {
            None => Ok(doc.body),
            Some(old) => {
                let current = lossy_text(bytes);
                if line_bound(old) >= u32::MAX || line_bound(current) >= u32::MAX {
                    Err(too_large_error(gloss))
                } else {
                    update_body_spec(doc.body, old, current, gloss)
                }
            },
        };
        match moved {
            Err(e) => Err(e),
            Ok(body) => {
                let stamp = fresh_spec(now, doc.updated);
                Ok(
                    (
                        FileView { body, updated: stamp, editor, ..doc },
                        record_file_spec(st, source, bytes, stamp),
                        true,
                    ),
                )
            },
        }
    }
}

/// Maintains one gloss as `update` does; on error the gloss and the state
/// are left as they were.
pub fn maintain_gloss(
    document: &mut GlossFile,
    state: &mut DerivedState,
    source: &str,
    gloss: &str,
    source_bytes: &[u8],
    changed: bool,
    old_source: Option<&str>,
    now: Timestamp,
    editor: &str,
) -> (r: Result<bool, GlossError>)
    requires
        old(state).wf(),
    ensures
        final(state).wf(),
        match r {
            Ok(write) => maintain_spec(
                old(document)@,
                old(state)@,
                source@,
                gloss@,
                source_bytes@,
                changed,
                match old_source {
                    Some(o) => Some(o@),
                    None => None,
                },
                now,
                editor@,
            ) == Ok::<(FileView, StateView, bool), ErrorView>(
                (final(document)@, final(state)@, write),
            ),
            Err(e) => maintain_spec(
                old(document)@,
                old(state)@,
                source@,
                gloss@,
                source_bytes@,
                changed,
                match old_source {
                    Some(o) => Some(o@),
                    None => None,
                },
                now,
                editor@,
            ) == Err::<(FileView, StateView, bool), ErrorView>(e@) && final(document)@ == old(
                document,
            )@ && final(state)@ == old(state)@,
        },
{
    if !changed {
        state.record_file(source, source_bytes, document.updated);
        return Ok(false);
    }
    match old_source {
        None => {},
        Some(old) => {
            let current = output_text(source_bytes);
            let old_breaks = break_count_of(old);
            let current_breaks = break_count_of(current.as_str());
            if old_breaks >= 0xffff_fffe || current_breaks >= 0xffff_fffe {
                return Err(
                    GlossError::new(
                        ErrorCode::StaleGloss,
                        "source has too many lines to remap its glosses".to_owned(),
                    ).file(gloss),
                );
            }
            remap_document(document, old, current.as_str(), gloss)?;
        },
    }
    let stamp = fresh_timestamp(now, document.updated);
    document.updated = stamp;
    document.editor = string_of(&chars_of(editor));
    state.record_file(source, source_bytes, stamp);
    Ok(true)
}

/// After `update` maintains a gloss, the derived state matches its header:
/// the header check of `lint` finds nothing to report for that source.
pub proof fn lemma_maintained_header_current(
    doc: FileView,
    st: StateView,
    source: Seq<char>,
    gloss: Seq<char>,
    bytes: Seq<u8>,
    changed: bool,
    old_source: Option<Seq<char>>,
    now: Timestamp,
    editor: Seq<char>,
)
    requires
        maintain_spec(doc, st, source, gloss, bytes, changed, old_source, now, editor) is Ok,
    ensures
        ({
            let (d, s, _) = maintain_spec(
                doc,
                st,
                source,
                gloss,
                bytes,
                changed,
                old_source,
                now,
                editor,
            )->Ok_0;
            header_errors(gloss, bytes, d.updated, file_entry(s, source)) == Seq::<ErrorView>::empty()
        }),
{
    let (d, s, _) = maintain_spec(doc, st, source, gloss, bytes, changed, old_source, now, editor)->Ok_0;
    crate::state::lemma_record_file_then_file(st, source, source, bytes, d.updated);
}

/// What `update` reports.
pub open spec fn update_summary_spec(updated: nat) -> Seq<char> {
    if updated == 0 {
        "Gloss metadata is already up to date."@
    } else {
        "Updated "@ + dec(updated) + " gloss file"@ + plural_spec(updated) + "."@
    }
}

pub fn update_summary(updated: usize) -> (s: String)
    ensures
        s@ == update_summary_spec(updated as nat),
{
    if updated == 0 {
        return "Gloss metadata is already up to date.".to_owned();
    }
    let mut m = chars_of("Updated ");
    push_dec(&mut m, updated as u64);
    push_str(&mut m, " gloss file");
    push_str(&mut m, crate::checks::plural(updated));
    push_str(&mut m, ".");
    string_of(&m)
}

/// What `repair` reports: the number of edit IDs whose provenance was
/// rebuilt, then the update report in lower case.
pub open spec fn repair_summary_spec(mappings: nat, updated: nat) -> Seq<char> {
    "Repaired provenance for "@ + dec(mappings) + " edit"@ + plural_spec(mappings) + "; "@ + (
    if updated == 0 {
        "gloss metadata is already up to date."@
    } else {
        "updated "@ + dec(updated) + " gloss file"@ + plural_spec(updated) + "."@
    })
}

pub fn repair_summary(mappings: usize, updated: usize) -> (s: String)
    ensures
        s@ == repair_summary_spec(mappings as nat, updated as nat),
{
    let mut m = chars_of("Repaired provenance for ");
    push_dec(&mut m, mappings as u64);
    push_str(&mut m, " edit");
    push_str(&mut m, crate::checks::plural(mappings));
    push_str(&mut m, "; ");
    if updated == 0 {
        push_str(&mut m, "gloss metadata is already up to date.");
    } else {
        push_str(&mut m, "updated ");
        push_dec(&mut m, updated as u64);
        push_str(&mut m, " gloss file");
        push_str(&mut m, crate::checks::plural(updated));
        push_str(&mut m, ".");
    }
    string_of(&m)
}

/// One line of `status`: a hunk's new lines, and the record that explains
/// them, if any.
#[derive(Clone, Copy, Debug, PartialEq, Eq, Structural)]
pub struct HunkStatus {
    pub range: LineRange,
    pub edit_id: Option<u128>,
}

/// The records whose ranges overlap `h`, in order.
pub open spec fn overlapping(records: Seq<RecordView>, h: LineRange) -> Seq<RecordView>
    decreases records.len(),
{
    if records.len() == 0 {
        seq![]
    } else {
        let prev = overlapping(records.drop_last(), h);
        let r = records.last();
        if r.range.start <= h.end && h.start <= r.range.end {
            prev.push(r)
        } else {
            prev
        }
    }
}

/// The status lines of one hunk's new lines: one `unglossed` line when no
/// record overlaps them, else one `glossed` line per overlapping record with
/// the first 12 characters of its edit ID.
pub open spec fn hunk_status_lines(h: LineRange, ms: Seq<RecordView>) -> (Seq<char>, Seq<HunkStatus>)
    decreases ms.len(),
{
    if ms.len() == 0 {
        (seq![], seq![])
    } else {
        let prev = hunk_status_lines(h, ms.drop_last());
        let id = ms.last().edit_id;
        (
            prev.0 + "  "@ + range_text(h) + "  "@ + uuid_text(id).take(12) + "…  glossed\n"@,
            prev.1.push(HunkStatus { range: h, edit_id: Some(id) }),
        )
    }
}

pub open spec fn hunk_status(h: LineRange, records: Seq<RecordView>) -> (Seq<char>, Seq<HunkStatus>) {
    let ms = overlapping(records, h);
    if ms.len() == 0 {
        (
            "  "@ + range_text(h) + "              unglossed\n"@,
            seq![HunkStatus { range: h, edit_id: None }],
        )
    } else {
        hunk_status_lines(h, ms)
    }
}

/// The status of the hunks of a changed source file, in order; hunks that
/// only remove lines have no new lines and no status.
pub open spec fn hunks_status(hunks: Seq<DiffHunk>, records: Seq<RecordView>) -> (
    Seq<char>,
    Seq<HunkStatus>,
)
    decreases hunks.len(),
{
    if hunks.len() == 0 {
        (seq![], seq![])
    } else {
        let prev = hunks_status(hunks.drop_last(), records);
        match crate::git::hunk_new_range(hunks.last()) {
            None => prev,
            Some(h) => {
                let s = hunk_status(h, records);
                (prev.0 + s.0, prev.1 + s.1)
            },
        }
    }
}

/// What `status` shows of one changed source file: its path, a line per
/// hunk and explaining record, and a blank line; nothing when Git reports
/// no hunks for it.
pub open spec fn status_section_spec(source: Seq<char>, hunks: Seq<DiffHunk>, records: Seq<RecordView>) -> Option<
    (Seq<char>, Seq<HunkStatus>),
> {
    if hunks.len() == 0 {
        None
    } else {
        let s = hunks_status(hunks, records);
        Some((display_path(source) + "\n"@ + s.0 + "\n"@, s.1))
    }
}

/// The two ranges have a line in common.
pub open spec fn shares_line(a: LineRange, b: LineRange) -> bool {
    exists|x: int| #[trigger] line_in(a, x) && line_in(b, x)
}

/// Line `x` lies in the range.
pub open spec fn line_in(r: LineRange, x: int) -> bool {
    r.start <= x <= r.end
}

proof fn lemma_overlapping_members(records: Seq<RecordView>, h: LineRange)
    ensures
        forall|j: int|
            0 <= j < records.len() && records[j].range.start <= h.end && h.start
                <= records[j].range.end ==> overlapping(records, h).contains(#[trigger] records[j]),
        forall|m: int|
            0 <= m < overlapping(records, h).len() ==> exists|j: int|
                0 <= j < records.len() && records[j] == #[trigger] overlapping(records, h)[m]
                    && records[j].range.start <= h.end && h.start <= records[j].range.end,
    decreases records.len(),
{
    if records.len() > 0 {
        let d = records.drop_last();
        lemma_overlapping_members(d, h);
        let prev = overlapping(d, h);
        let ov = overlapping(records, h);
        let r = records.last();
        assert forall|j: int|
            0 <= j < records.len() && records[j].range.start <= h.end && h.start
                <= records[j].range.end implies ov.contains(#[trigger] records[j]) by {
            if j < d.len() {
                assert(d[j] == records[j]);
                assert(prev.contains(d[j]));
                let m = choose|m: int| 0 <= m < prev.len() && prev[m] == d[j];
                assert(ov[m] == prev[m]);
            } else {
                assert(ov[ov.len() - 1] == r);
            }
        }
        assert forall|m: int| 0 <= m < ov.len() implies exists|j: int|
            0 <= j < records.len() && records[j] == #[trigger] ov[m] && records[j].range.start
                <= h.end && h.start <= records[j].range.end by {
            if m < prev.len() {
                assert(ov[m] == prev[m]);
                let j = choose|j: int|
                    0 <= j < d.len() && d[j] == prev[m] && d[j].range.start <= h.end && h.start
                        <= d[j].range.end;
                assert(records[j] == d[j]);
            } else {
                assert(ov[m] == r);
                assert(records[records.len() - 1] == r);
            }
        }
    }
}

proof fn lemma_status_lines(h: LineRange, ms: Seq<RecordView>)
    ensures
        hunk_status_lines(h, ms).1.len() == ms.len(),
        forall|m: int|
            0 <= m < ms.len() ==> #[trigger] hunk_status_lines(h, ms).1[m] == (HunkStatus {
                range: h,
                edit_id: Some(ms[m].edit_id),
            }),
    decreases ms.len(),
{
    if ms.len() > 0 {
        let d = ms.drop_last();
        lemma_status_lines(h, d);
        assert forall|m: int| 0 <= m < ms.len() implies #[trigger] hunk_status_lines(h, ms).1[m]
            == (HunkStatus { range: h, edit_id: Some(ms[m].edit_id) }) by {
            if m < d.len() {
                assert(d[m] == ms[m]);
            }
        }
    }
}

/// The entries of one hunk's status, against the records.
proof fn lemma_hunk_status_entries(h: LineRange, records: Seq<RecordView>)
    ensures
        hunk_status(h, records).1.len() >= 1,
        forall|i: int|
            0 <= i < hunk_status(h, records).1.len() ==> (#[trigger] hunk_status(h, records).1[i]).range
                == h,
        forall|i: int|
            0 <= i < hunk_status(h, records).1.len() && (#[trigger] hunk_status(
                h,
                records,
            ).1[i]).edit_id is None ==> forall|j: int|
                0 <= j < records.len() ==> !(#[trigger] records[j].range.start <= h.end && h.start
                    <= records[j].range.end),
        forall|i: int|
            0 <= i < hunk_status(h, records).1.len() && (#[trigger] hunk_status(
                h,
                records,
            ).1[i]).edit_id is Some ==> exists|j: int|
                0 <= j < records.len() && #[trigger] records[j].edit_id == hunk_status(
                    h,
                    records,
                ).1[i].edit_id->Some_0 && records[j].range.start <= h.end && h.start
                    <= records[j].range.end,
        forall|j: int|
            0 <= j < records.len() && records[j].range.start <= h.end && h.start
                <= records[j].range.end ==> hunk_status(h, records).1.contains(
                HunkStatus { range: h, edit_id: Some(#[trigger] records[j].edit_id) },
            ),
{
    let ms = overlapping(records, h);
    lemma_overlapping_members(records, h);
    lemma_status_lines(h, ms);
    let s = hunk_status(h, records).1;
    if ms.len() > 0 {
        assert forall|i: int| 0 <= i < s.len() && (#[trigger] s[i]).edit_id is Some implies exists|j: int|
            0 <= j < records.len() && #[trigger] records[j].edit_id == s[i].edit_id->Some_0
                && records[j].range.start <= h.end && h.start <= records[j].range.end by {
            assert(s[i] == hunk_status_lines(h, ms).1[i]);
            let j = choose|j: int|
                0 <= j < records.len() && records[j] == ms[i] && records[j].range.start <= h.end
                    && h.start <= records[j].range.end;
            assert(records[j].edit_id == s[i].edit_id->Some_0);
        }
        assert forall|j: int|
            0 <= j < records.len() && records[j].range.start <= h.end && h.start
                <= records[j].range.end implies s.contains(
            HunkStatus { range: h, edit_id: Some(#[trigger] records[j].edit_id) },
        ) by {
            assert(ms.contains(records[j]));
            let m = choose|m: int| 0 <= m < ms.len() && ms[m] == records[j];
            assert(s[m] == hunk_status_lines(h, ms).1[m]);
        }
    } else {
        assert forall|j: int| 0 <= j < records.len() implies !(#[trigger] records[j].range.start
            <= h.end && h.start <= records[j].range.end) by {
            if records[j].range.start <= h.end && h.start <= records[j].range.end {
                assert(ms.contains(records[j]));
            }
        }
    }
}

/// Every entry of the status of several hunks comes from one hunk's status,
/// and every entry of each hunk's status is there.
proof fn lemma_hunks_status_entries(hunks: Seq<DiffHunk>, records: Seq<RecordView>)
    ensures
        forall|i: int|
            #![trigger hunks_status(hunks, records).1[i]]
            0 <= i < hunks_status(hunks, records).1.len() ==> exists|k: int|
                0 <= k < hunks.len() && hunk_new_range(#[trigger] hunks[k]) == Some(
                    hunks_status(hunks, records).1[i].range,
                ) && hunk_status(hunks_status(hunks, records).1[i].range, records).1.contains(
                    hunks_status(hunks, records).1[i],
                ),
        forall|k: int, m: int|
            0 <= k < hunks.len() && hunk_new_range(hunks[k]) is Some && 0 <= m < hunk_status(
                hunk_new_range(hunks[k])->Some_0,
                records,
            ).1.len() ==> hunks_status(hunks, records).1.contains(
                #[trigger] hunk_status(hunk_new_range(hunks[k])->Some_0, records).1[m],
            ),
    decreases hunks.len(),
{
    if hunks.len() > 0 {
        let d = hunks.drop_last();
        lemma_hunks_status_entries(d, records);
        let prev = hunks_status(d, records).1;
        let e = hunks_status(hunks, records).1;
        let last = hunks.last();
        let n = hunks.len() - 1;
        assert(hunks[n] == last);
        assert forall|i: int| #![trigger e[i]] 0 <= i < e.len() implies exists|k: int|
            0 <= k < hunks.len() && hunk_new_range(#[trigger] hunks[k]) == Some(e[i].range)
                && hunk_status(e[i].range, records).1.contains(e[i]) by {
            if i < prev.len() {
                assert(e[i] == prev[i]);
                let k = choose|k: int|
                    0 <= k < d.len() && hunk_new_range(#[trigger] d[k]) == Some(prev[i].range)
                        && hunk_status(prev[i].range, records).1.contains(prev[i]);
                assert(hunks[k] == d[k]);
            } else {
                let h = hunk_new_range(last)->Some_0;
                let s = hunk_status(h, records).1;
                assert(e =~= prev + s);
                assert(e[i] == s[i - prev.len()]);
                lemma_hunk_status_entries(h, records);
                assert(e[i].range == h);
                assert(s.contains(e[i]));
            }
        }
        assert forall|k: int, m: int|
            0 <= k < hunks.len() && hunk_new_range(hunks[k]) is Some && 0 <= m < hunk_status(
                hunk_new_range(hunks[k])->Some_0,
                records,
            ).1.len() implies e.contains(
            #[trigger] hunk_status(hunk_new_range(hunks[k])->Some_0, records).1[m],
        ) by {
            let s = hunk_status(hunk_new_range(hunks[k])->Some_0, records).1;
            if k < n {
                assert(hunks[k] == d[k]);
                assert(prev.contains(s[m]));
                let i = choose|i: int| 0 <= i < prev.len() && prev[i] == s[m];
                if hunk_new_range(last) is Some {
                    let sl = hunk_status(hunk_new_range(last)->Some_0, records).1;
                    assert(e =~= prev + sl);
                }
                assert(e[i] == prev[i]);
            } else {
                assert(e =~= prev + s);
                assert(e[prev.len() + m] == s[m]);
            }
        }
    }
}

/// `status` reports a hunk's new lines as glossed by every record whose
/// range shares a line with them: the entry names that record's edit ID.
pub proof fn lemma_status_glosses_overlaps(hunks: Seq<DiffHunk>, records: Seq<RecordView>)
    ensures
        forall|k: int, j: int|
            0 <= k < hunks.len() && 0 <= j < records.len() && hunk_new_range(#[trigger] hunks[k])
                is Some && shares_line(hunk_new_range(hunks[k])->Some_0, #[trigger] records[j].range)
                ==> hunks_status(hunks, records).1.contains(
                HunkStatus {
                    range: hunk_new_range(hunks[k])->Some_0,
                    edit_id: Some(records[j].edit_id),
                },
            ),
{
    lemma_hunks_status_entries(hunks, records);
    assert forall|k: int, j: int|
        0 <= k < hunks.len() && 0 <= j < records.len() && hunk_new_range(#[trigger] hunks[k])
            is Some && shares_line(hunk_new_range(hunks[k])->Some_0, #[trigger] records[j].range)
            implies hunks_status(hunks, records).1.contains(
        HunkStatus { range: hunk_new_range(hunks[k])->Some_0, edit_id: Some(records[j].edit_id) },
    ) by {
        let h = hunk_new_range(hunks[k])->Some_0;
        let x = choose|x: int| #[trigger] line_in(h, x) && line_in(records[j].range, x);
        lemma_hunk_status_entries(h, records);
        let s = hunk_status(h, records).1;
        let entry = HunkStatus { range: h, edit_id: Some(records[j].edit_id) };
        assert(s.contains(entry));
        let m = choose|m: int| 0 <= m < s.len() && s[m] == entry;
        assert(hunks_status(hunks, records).1.contains(s[m]));
    }
}

/// With ranges that do not run backwards, every `status` entry stands for
/// a hunk's new lines; an entry naming an edit ID names a record whose range
/// shares a line with them, and an `unglossed` entry stands for lines that
/// no record's range touches. Every hunk with new lines has an entry.
pub proof fn lemma_status_glosses_only_overlaps(hunks: Seq<DiffHunk>, records: Seq<RecordView>)
    requires
        forall|k: int| 0 <= k < hunks.len() ==> hunk_fits(#[trigger] hunks[k]),
        forall|j: int| 0 <= j < records.len() ==> (#[trigger] records[j]).range.start
            <= records[j].range.end,
    ensures
        forall|i: int|
            #![trigger hunks_status(hunks, records).1[i]]
            0 <= i < hunks_status(hunks, records).1.len() ==> exists|k: int|
                0 <= k < hunks.len() && hunk_new_range(#[trigger] hunks[k]) == Some(
                    hunks_status(hunks, records).1[i].range,
                ),
        forall|i: int|
            0 <= i < hunks_status(hunks, records).1.len() && (#[trigger] hunks_status(
                hunks,
                records,
            ).1[i]).edit_id is Some ==> exists|j: int|
                0 <= j < records.len() && #[trigger] records[j].edit_id == hunks_status(
                    hunks,
                    records,
                ).1[i].edit_id->Some_0 && shares_line(
                    hunks_status(hunks, records).1[i].range,
                    records[j].range,
                ),
        forall|i: int|
            0 <= i < hunks_status(hunks, records).1.len() && (#[trigger] hunks_status(
                hunks,
                records,
            ).1[i]).edit_id is None ==> forall|j: int|
                0 <= j < records.len() ==> !shares_line(
                    hunks_status(hunks, records).1[i].range,
                    #[trigger] records[j].range,
                ),
        forall|k: int|
            0 <= k < hunks.len() && hunk_new_range(#[trigger] hunks[k]) is Some ==> exists|i: int|
                0 <= i < hunks_status(hunks, records).1.len() && (#[trigger] hunks_status(
                    hunks,
                    records,
                ).1[i]).range == hunk_new_range(hunks[k])->Some_0,
{
    lemma_hunks_status_entries(hunks, records);
    let e = hunks_status(hunks, records).1;
    assert forall|i: int| 0 <= i < e.len() && (#[trigger] e[i]).edit_id is Some implies exists|j: int|
        0 <= j < records.len() && #[trigger] records[j].edit_id == e[i].edit_id->Some_0
            && shares_line(e[i].range, records[j].range) by {
        let k = choose|k: int|
            0 <= k < hunks.len() && hunk_new_range(#[trigger] hunks[k]) == Some(e[i].range)
                && hunk_status(e[i].range, records).1.contains(e[i]);
        let h = e[i].range;
        assert(hunk_fits(hunks[k]));
        assert(h.start <= h.end);
        lemma_hunk_status_entries(h, records);
        let s = hunk_status(h, records).1;
        let m = choose|m: int| 0 <= m < s.len() && s[m] == e[i];
        assert(s[m].edit_id is Some);
        let j = choose|j: int|
            0 <= j < records.len() && #[trigger] records[j].edit_id == s[m].edit_id->Some_0
                && records[j].range.start <= h.end && h.start <= records[j].range.end;
        assert(records[j].range.start <= records[j].range.end);
        let x: int = if h.start >= records[j].range.start {
            h.start as int
        } else {
            records[j].range.start as int
        };
        assert(line_in(h, x) && line_in(records[j].range, x));
    }
    assert forall|i: int| 0 <= i < e.len() && (#[trigger] e[i]).edit_id is None implies forall|j: int|
        0 <= j < records.len() ==> !shares_line(e[i].range, #[trigger] records[j].range) by {
        let k = choose|k: int|
            0 <= k < hunks.len() && hunk_new_range(#[trigger] hunks[k]) == Some(e[i].range)
                && hunk_status(e[i].range, records).1.contains(e[i]);
        let h = e[i].range;
        lemma_hunk_status_entries(h, records);
        let s = hunk_status(h, records).1;
        let m = choose|m: int| 0 <= m < s.len() && s[m] == e[i];
        assert(s[m].edit_id is None);
        assert forall|j: int| 0 <= j < records.len() implies !shares_line(
            h,
            #[trigger] records[j].range,
        ) by {
            assert(!(records[j].range.start <= h.end && h.start <= records[j].range.end));
            if shares_line(h, records[j].range) {
                let x = choose|x: int| #[trigger] line_in(h, x) && line_in(records[j].range, x);
            }
        }
    }
    assert forall|k: int| 0 <= k < hunks.len() && hunk_new_range(#[trigger] hunks[k]) is Some implies exists|i: int|
        0 <= i < e.len() && (#[trigger] e[i]).range == hunk_new_range(hunks[k])->Some_0 by {
        let h = hunk_new_range(hunks[k])->Some_0;
        lemma_hunk_status_entries(h, records);
        let s = hunk_status(h, records).1;
        assert(s[0].range == h);
        assert(e.contains(s[0]));
    }
}

fn overlapping_of<'a>(records: &Vec<&'a GlossRecord>, h: LineRange) -> (r: Vec<&'a GlossRecord>)
    ensures
        crate::format::record_refs_view(r@) == overlapping(
            crate::format::record_refs_view(records@),
            h,
        ),
{
    let ghost rv = crate::format::record_refs_view(records@);
    let mut r: Vec<&GlossRecord> = Vec::new();
    let mut i: usize = 0;
    while i < records.len()
        invariant
            rv == crate::format::record_refs_view(records@),
            i <= records@.len(),
            crate::format::record_refs_view(r@) == overlapping(rv.take(i as int), h),
        decreases records@.len() - i,
    {
        let ghost before = r@;
        proof {
            assert(rv.take(i + 1).drop_last() =~= rv.take(i as int));
            assert(rv.take(i + 1).last() == records@[i as int]@);
        }
        let rec = records[i];
        if rec.range.overlaps(&h) {
            r.push(rec);
            proof {
                assert(crate::format::record_refs_view(r@) =~= crate::format::record_refs_view(
                    before,
                ).push(rec@));
            }
        }
        i = i + 1;
    }
    proof {
        assert(rv.take(records@.len() as int) =~= rv);
    }
    r
}

fn push_hunk_status(
    text: &mut Vec<char>,
    entries: &mut Vec<HunkStatus>,
    h: LineRange,
    records: &Vec<&GlossRecord>,
)
    ensures
        ({
            let s = hunk_status(h, crate::format::record_refs_view(records@));
            &&& final(text)@ == old(text)@ + s.0
            &&& final(entries)@ == old(entries)@ + s.1
        }),
{
    let ms = overlapping_of(records, h);
    let ghost mv = crate::format::record_refs_view(ms@);
    let ghost t0 = text@;
    let ghost e0 = entries@;
    if ms.len() == 0 {
        push_str(text, "  ");
        push_str(text, h.to_text().as_str());
        push_str(text, "              unglossed\n");
        entries.push(HunkStatus { range: h, edit_id: None });
        proof {
            assert(text@ =~= t0 + ("  "@ + range_text(h) + "              unglossed\n"@));
            assert(entries@ =~= e0 + seq![HunkStatus { range: h, edit_id: None }]);
        }
        return;
    }
    let mut i: usize = 0;
    proof {
        assert(mv.take(0) =~= Seq::<RecordView>::empty());
        assert(text@ =~= t0 + hunk_status_lines(h, mv.take(0)).0);
        assert(entries@ =~= e0 + hunk_status_lines(h, mv.take(0)).1);
    }
    while i < ms.len()
        invariant
            mv == crate::format::record_refs_view(ms@),
            i <= ms@.len(),
            text@ == t0 + hunk_status_lines(h, mv.take(i as int)).0,
            entries@ == e0 + hunk_status_lines(h, mv.take(i as int)).1,
        decreases ms@.len() - i,
    {
        proof {
            assert(mv.take(i + 1).drop_last() =~= mv.take(i as int));
            assert(mv.take(i + 1).last() == ms@[i as int]@);
        }
        let id = ms[i].edit_id;
        let full = chars_of(edit_id_text(id).as_str());
        proof {
            crate::round_trip::lemma_uuid_text(id);
        }
        let short = slice_of(&full, 0, 12);
        let ghost tb = text@;
        push_str(text, "  ");
        push_str(text, h.to_text().as_str());
        push_str(text, "  ");
        push_all(text, &short);
        push_str(text, "…  glossed\n");
        entries.push(HunkStatus { range: h, edit_id: Some(id) });
        proof {
            assert(short@ =~= uuid_text(id).take(12));
            assert(text@ =~= tb + ("  "@ + range_text(h) + "  "@ + uuid_text(id).take(12)
                + "…  glossed\n"@));
            assert(text@ =~= t0 + hunk_status_lines(h, mv.take(i + 1)).0);
            assert(entries@ =~= e0 + hunk_status_lines(h, mv.take(i + 1)).1);
        }
        i = i + 1;
    }
    proof {
        assert(mv.take(ms@.len() as int) =~= mv);
    }
}

/// The `status` section of one changed source file.
pub fn status_section(source: &str, hunks: &Vec<DiffHunk>, records: &Vec<&GlossRecord>) -> (r: Option<
    (String, Vec<HunkStatus>),
>)
    requires
        forall|i: int| 0 <= i < hunks@.len() ==> hunk_fits(#[trigger] hunks@[i]),
    ensures
        match r {
            Some((t, e)) => status_section_spec(
                source@,
                hunks@,
                crate::format::record_refs_view(records@),
            ) == Some((t@, e@)),
            None => status_section_spec(
                source@,
                hunks@,
                crate::format::record_refs_view(records@),
            ) is None,
        },
        r is Some ==> forall|k: int, j: int|
            0 <= k < hunks@.len() && 0 <= j < records@.len() && hunk_new_range(
                #[trigger] hunks@[k],
            ) is Some && shares_line(
                hunk_new_range(hunks@[k])->Some_0,
                (#[trigger] records@[j]).range,
            ) ==> r->Some_0.1@.contains(
                HunkStatus {
                    range: hunk_new_range(hunks@[k])->Some_0,
                    edit_id: Some(records@[j].edit_id),
                },
            ),
{
    if hunks.len() == 0 {
        return None;
    }
    let ghost rv = crate::format::record_refs_view(records@);
    let mut text: Vec<char> = chars_of(display_path_of(source).as_str());
    push_str(&mut text, "\n");
    let ghost t0 = text@;
    let mut entries: Vec<HunkStatus> = Vec::new();
    let mut i: usize = 0;
    proof {
        assert(hunks@.take(0) =~= Seq::<DiffHunk>::empty());
        assert(text@ =~= t0 + hunks_status(hunks@.take(0), rv).0);
        assert(entries@ =~= hunks_status(hunks@.take(0), rv).1);
    }
    while i < hunks.len()
        invariant
            rv == crate::format::record_refs_view(records@),
            forall|j: int| 0 <= j < hunks@.len() ==> hunk_fits(#[trigger] hunks@[j]),
            i <= hunks@.len(),
            text@ == t0 + hunks_status(hunks@.take(i as int), rv).0,
            entries@ == hunks_status(hunks@.take(i as int), rv).1,
        decreases hunks@.len() - i,
    {
        proof {
            assert(hunks@.take(i + 1).drop_last() =~= hunks@.take(i as int));
            assert(hunks@.take(i + 1).last() == hunks@[i as int]);
            assert(hunk_fits(hunks@[i as int]));
        }
        let ghost tb = text@;
        let ghost eb = entries@;
        match hunks[i].new_range() {
            None => {},
            Some(h) => {
                push_hunk_status(&mut text, &mut entries, h, records);
                proof {
                    assert(text@ =~= t0 + hunks_status(hunks@.take(i + 1), rv).0);
                }
            },
        }
        i = i + 1;
    }
    proof {
        assert(hunks@.take(hunks@.len() as int) =~= hunks@);
    }
    push_str(&mut text, "\n");
    proof {
        lemma_status_glosses_overlaps(hunks@, rv);
        assert(entries@ == hunks_status(hunks@, rv).1);
        assert forall|k: int, j: int|
            0 <= k < hunks@.len() && 0 <= j < records@.len() && hunk_new_range(
                #[trigger] hunks@[k],
            ) is Some && shares_line(
                hunk_new_range(hunks@[k])->Some_0,
                (#[trigger] records@[j]).range,
            ) implies entries@.contains(
            HunkStatus {
                range: hunk_new_range(hunks@[k])->Some_0,
                edit_id: Some(records@[j].edit_id),
            },
        ) by {
            assert(rv[j] == records@[j]@);
            assert(rv[j].range == records@[j].range);
            assert(rv[j].edit_id == records@[j].edit_id);
        }
    }
    Some((string_of(&text), entries))
}

/// How many lines a source text has: none when it is empty, else those that
/// `str::lines` yields, truncated to 32 bits.
pub open spec fn text_line_count_spec(text: Seq<char>) -> u32 {
    if text.len() == 0 {
        0
    } else {
        crate::text::lines(text).len() as u32
    }
}

pub fn text_line_count(text: &str) -> (n: u32)
    ensures
        n == text_line_count_spec(text@),
{
    let chars = chars_of(text);
    if chars.len() == 0 {
        return 0;
    }
    let ls = crate::text::split_lines(&chars);
    proof {
        assert(ls@.len() == crate::text::seqs_view(ls@).len());
    }
    #[verifier::truncate]
    (ls.len() as u32)
}

/// The revision whose files count as "before the change" in a scope: `HEAD`
/// for the working tree and the index, the base for a base comparison.
pub fn previous_ref(scope: &ChangeScope) -> (r: String)
    ensures
        r@ == match scope {
            ChangeScope::Base(b) => b@,
            _ => "HEAD"@,
        },
{
    match scope {
        ChangeScope::Base(b) => string_of(&chars_of(b.as_str())),
        _ => "HEAD".to_owned(),
    }
}

/// What `init` reports.
pub open spec fn init_message_spec(skills: nat, scope: SkillScope) -> Seq<char> {
    "Initialized Gloss: installed hooks, CI validation, generated-file handling, setup metadata, and "@
        + dec(skills) + " agent skill"@ + plural_spec(skills) + " ("@ + scope_name(scope)
        + " scope)."@
}

pub fn init_message(skills: usize, scope: SkillScope) -> (s: String)
    ensures
        s@ == init_message_spec(skills as nat, scope),
{
    let mut m = chars_of(
        "Initialized Gloss: installed hooks, CI validation, generated-file handling, setup metadata, and ",
    );
    push_dec(&mut m, skills as u64);
    push_str(&mut m, " agent skill");
    push_str(&mut m, crate::checks::plural(skills));
    push_str(&mut m, " (");
    push_str(&mut m, scope.as_str());
    push_str(&mut m, " scope).");
    string_of(&m)
}

/// What `status` prints: the sections of the changed files, without the
/// trailing whitespace, or a note that nothing changed.
pub open spec fn status_text_spec(sections: Seq<Seq<char>>) -> Seq<char> {
    if sections.len() == 0 {
        "Working tree has no changed source hunks."@
    } else {
        let all = concat_all(sections);
        all.subrange(0, crate::text::trim_end_at(all, all.len() as int))
    }
}

pub open spec fn concat_all(ss: Seq<Seq<char>>) -> Seq<char>
    decreases ss.len(),
{
    if ss.len() == 0 {
        seq![]
    } else {
        concat_all(ss.drop_last()) + ss.last()
    }
}

pub fn status_text(sections: &Vec<String>) -> (s: String)
    ensures
        s@ == status_text_spec(sections@.map_values(|x: String| x@)),
{
    let ghost sv = sections@.map_values(|x: String| x@);
    if sections.len() == 0 {
        return "Working tree has no changed source hunks.".to_owned();
    }
    let mut all: Vec<char> = Vec::new();
    let mut i: usize = 0;
    proof {
        assert(sv.take(0) =~= Seq::<Seq<char>>::empty());
    }
    while i < sections.len()
        invariant
            sv == sections@.map_values(|x: String| x@),
            i <= sections@.len(),
            all@ == concat_all(sv.take(i as int)),
        decreases sections@.len() - i,
    {
        proof {
            assert(sv.take(i + 1).drop_last() =~= sv.take(i as int));
            assert(sv.take(i + 1).last() == sections@[i as int]@);
        }
        push_str(&mut all, sections[i].as_str());
        i = i + 1;
    }
    proof {
        assert(sv.take(sections@.len() as int) =~= sv);
    }
    let end = crate::text::trim_end_index(&all);
    proof {
        crate::text::lemma_trim_end(all@, all@.len() as int);
    }
    string_of(&slice_of(&all, 0, end))
}

/// Metadata for `add`, each falling back to the environment or `unknown`.
#[derive(Debug, Default)]
pub struct AddOptions {
    pub user: Option<String>,
    pub agent: Option<String>,
    pub session: Option<String>,
}

/// The editor `update` writes into the headers it touches.
#[derive(Debug, Default)]
pub struct UpdateOptions {
    pub editor: Option<String>,
}

/// What `lint` checks (the working tree, the index or a base comparison),
/// and whether it first fixes what `update` can.
#[derive(Debug)]
pub struct LintOptions {
    pub scope: ChangeScope,
    pub fix: bool,
    pub editor: Option<String>,
}

impl Default for LintOptions {
    fn default() -> (o: LintOptions)
        ensures
            o.scope == ChangeScope::WorkingTree,
            !o.fix,
            o.editor is None,
    {
        LintOptions { scope: ChangeScope::WorkingTree, fix: false, editor: None }
    }
}

/// `--fix` only applies to the working tree.
pub fn check_fix_scope(options: &LintOptions) -> (r: Result<(), GlossError>)
    ensures
        result_view(r) == (if options.fix && !(options.scope is WorkingTree) {
            Err::<(), ErrorView>(
                error_of(
                    ErrorCode::InvalidFormat,
                    "`--fix` only applies to working-tree lint; stage the fixed glosses before using `--staged`"@,
                ),
            )
        } else {
            Ok(())
        }),
{
    let working_tree = match options.scope {
        ChangeScope::WorkingTree => true,
        _ => false,
    };
    if options.fix && !working_tree {
        return Err(
            GlossError::new(
                ErrorCode::InvalidFormat,
                "`--fix` only applies to working-tree lint; stage the fixed glosses before using `--staged`".to_owned(),
            ),
        );
    }
    Ok(())
}

/// Once `update` records the contents of a source file, the same contents
/// no longer count as a change, so a later `update` does not move the
/// file's ranges again.
pub proof fn lemma_recorded_source_unchanged(
    s: StateView,
    relative: Seq<char>,
    source: Seq<u8>,
    updated: Timestamp,
)
    ensures
        source_changed_spec(
            file_entry(record_file_spec(s, relative, source, updated), relative),
            source,
        ) == Some(false),
{
    crate::state::lemma_record_file_then_file(s, relative, relative, source, updated);
}

/// Moving ranges keeps every line of the body in place: opaque lines as
/// they were, records with their edit ID and all but their range unchanged.
pub proof fn lemma_remap_keeps_records(body: Seq<LineView>, hunks: Seq<DiffHunk>, gloss: Seq<char>)
    requires
        remap_body_spec(body, hunks, gloss) is Ok,
    ensures
        ({
            let moved = remap_body_spec(body, hunks, gloss)->Ok_0;
            &&& moved.len() == body.len()
            &&& forall|i: int| 0 <= i < body.len() ==> match body[i] {
                LineView::Opaque(s) => moved[i] == LineView::Opaque(s),
                LineView::Record(r) => exists|range: LineRange| #[trigger] moved[i] == LineView::Record(
                    RecordView { range, ..r },
                ),
            }
        }),
    decreases body.len(),
{
    if body.len() > 0 {
        let d = body.drop_last();
        lemma_remap_keeps_records(d, hunks, gloss);
        let prev = remap_body_spec(d, hunks, gloss)->Ok_0;
        let moved = remap_body_spec(body, hunks, gloss)->Ok_0;
        assert forall|i: int| 0 <= i < body.len() implies match body[i] {
            LineView::Opaque(s) => moved[i] == LineView::Opaque(s),
            LineView::Record(r) => exists|range: LineRange| #[trigger] moved[i] == LineView::Record(
                RecordView { range, ..r },
            ),
        } by {
            if i < d.len() {
                assert(body[i] == d[i]);
                assert(moved[i] == prev[i]);
            } else {
                match body.last() {
                    LineView::Opaque(s) => {},
                    LineView::Record(r) => {
                        let range = remap_spec(r.range, hunks)->Ok_0;
                        assert(moved[i] == LineView::Record(RecordView { range, ..r }));
                    },
                }
            }
        }
    }
}

/// Without hunks, a valid range stays where it is.
pub proof fn lemma_remap_no_hunks(range: LineRange)
    requires
        range.valid(),
    ensures
        remap_spec(range, seq![]) == Ok::<LineRange, ErrorView>(range),
{
}

/// The total number of lines that the hunks add (removed lines counted
/// negative).
pub open spec fn line_delta(hunks: Seq<DiffHunk>) -> int
    decreases hunks.len(),
{
    if hunks.len() == 0 {
        0
    } else {
        line_delta(hunks.drop_last()) + hunks.last().new_count - hunks.last().old_count
    }
}

proof fn lemma_remap_scan_before(range: LineRange, hunks: Seq<DiffHunk>, i: int, delta: int)
    requires
        0 <= i <= hunks.len(),
        forall|j: int| 0 <= j < hunks.len() ==> crate::checks::hunk_old_end(#[trigger] hunks[j])
            < range.start,
    ensures
        crate::checks::remap_scan(range, hunks, i, delta) == Some(
            delta + line_delta(hunks) - line_delta(hunks.take(i)),
        ),
    decreases hunks.len() - i,
{
    if i < hunks.len() {
        let h = hunks[i];
        assert(crate::checks::hunk_old_end(h) < range.start);
        lemma_remap_scan_before(range, hunks, i + 1, delta + h.new_count - h.old_count);
        assert(hunks.take(i + 1).drop_last() =~= hunks.take(i));
        assert(hunks.take(i + 1).last() == h);
    } else {
        assert(hunks.take(i) =~= hunks);
    }
}

/// Edits that all end before a range shift it by the lines they add.
pub proof fn lemma_remap_shift(range: LineRange, hunks: Seq<DiffHunk>)
    requires
        forall|j: int| 0 <= j < hunks.len() ==> crate::checks::hunk_old_end(#[trigger] hunks[j])
            < range.start,
    ensures
        remap_spec(range, hunks) == crate::format::line_range_new(
            (range.start + line_delta(hunks)) as u32,
            (range.end + line_delta(hunks)) as u32,
        ),
{
    lemma_remap_scan_before(range, hunks, 0, 0);
    assert(hunks.take(0) =~= Seq::<DiffHunk>::empty());
}

/// Edits that all start after a range leave it where it is.
pub proof fn lemma_remap_after(range: LineRange, hunks: Seq<DiffHunk>)
    requires
        range.valid(),
        hunks.len() > 0,
        hunks[0].old_start > range.end,
    ensures
        remap_spec(range, hunks) == Ok::<LineRange, ErrorView>(range),
{
    assert(crate::checks::hunk_old_end(hunks[0]) >= hunks[0].old_start);
}

/// Hunks in order of the old file, each ending before the next starts.
pub open spec fn hunks_ordered(hunks: Seq<DiffHunk>) -> bool {
    forall|j: int, k: int|
        0 <= j < k < hunks.len() ==> crate::checks::hunk_old_end(#[trigger] hunks[j])
            < (#[trigger] hunks[k]).old_start
}

/// The index of the first hunk from `i` on that does not end before the
/// range, or the number of hunks.
pub open spec fn first_not_before(range: LineRange, hunks: Seq<DiffHunk>, i: int) -> int
    decreases hunks.len() - i,
{
    if i < 0 || i >= hunks.len() {
        hunks.len() as int
    } else if crate::checks::hunk_old_end(hunks[i]) < range.start {
        first_not_before(range, hunks, i + 1)
    } else {
        i
    }
}

/// A hunk that overlaps the range and changes the number of lines.
pub open spec fn stale_hunk(range: LineRange, h: DiffHunk) -> bool {
    &&& crate::checks::hunk_old_end(h) >= range.start
    &&& h.old_start <= range.end
    &&& h.old_count != h.new_count
}

proof fn lemma_first_not_before(range: LineRange, hunks: Seq<DiffHunk>, i: int)
    requires
        0 <= i <= hunks.len(),
    ensures
        i <= first_not_before(range, hunks, i) <= hunks.len(),
        forall|j: int|
            i <= j < first_not_before(range, hunks, i) ==> crate::checks::hunk_old_end(
                #[trigger] hunks[j],
            ) < range.start,
        first_not_before(range, hunks, i) < hunks.len() ==> crate::checks::hunk_old_end(
            hunks[first_not_before(range, hunks, i)],
        ) >= range.start,
    decreases hunks.len() - i,
{
    if i < hunks.len() && crate::checks::hunk_old_end(hunks[i]) < range.start {
        lemma_first_not_before(range, hunks, i + 1);
    }
}

proof fn lemma_scan_to(range: LineRange, hunks: Seq<DiffHunk>, i: int, b: int, delta: int)
    requires
        0 <= i <= b <= hunks.len(),
        forall|j: int| i <= j < b ==> crate::checks::hunk_old_end(#[trigger] hunks[j]) < range.start,
    ensures
        crate::checks::remap_scan(range, hunks, i, delta) == crate::checks::remap_scan(
            range,
            hunks,
            b,
            delta + line_delta(hunks.take(b)) - line_delta(hunks.take(i)),
        ),
    decreases b - i,
{
    if i < b {
        let h = hunks[i];
        lemma_scan_to(range, hunks, i + 1, b, delta + h.new_count - h.old_count);
        assert(hunks.take(i + 1).drop_last() =~= hunks.take(i));
        assert(hunks.take(i + 1).last() == h);
    }
}

proof fn lemma_scan_from(range: LineRange, hunks: Seq<DiffHunk>, i: int, delta: int)
    requires
        hunks_ordered(hunks),
        0 <= i <= hunks.len(),
        forall|j: int| i <= j < hunks.len() ==> crate::checks::hunk_old_end(#[trigger] hunks[j])
            >= range.start,
    ensures
        crate::checks::remap_scan(range, hunks, i, delta) == (if exists|k: int|
            i <= k < hunks.len() && stale_hunk(range, #[trigger] hunks[k]) {
            None
        } else {
            Some(delta)
        }),
    decreases hunks.len() - i,
{
    if i < hunks.len() {
        let h = hunks[i];
        assert(crate::checks::hunk_old_end(h) >= range.start);
        if h.old_start > range.end {
            assert forall|k: int| i <= k < hunks.len() implies !stale_hunk(range, #[trigger] hunks[k]) by {
                if k > i {
                    assert(crate::checks::hunk_old_end(hunks[i]) < hunks[k].old_start);
                    assert(crate::checks::hunk_old_end(hunks[i]) >= hunks[i].old_start);
                }
            }
        } else if h.old_count != h.new_count {
            assert(stale_hunk(range, hunks[i]));
        } else {
            lemma_scan_from(range, hunks, i + 1, delta);
            assert(!stale_hunk(range, hunks[i]));
            if exists|k: int| i <= k < hunks.len() && stale_hunk(range, #[trigger] hunks[k]) {
                let k = choose|k: int| i <= k < hunks.len() && stale_hunk(range, #[trigger] hunks[k]);
                assert(k != i);
            }
        }
    }
}

/// Over hunks in order, where a range lands has a closed form: it is stale
/// when a hunk that overlaps it changes the number of lines; otherwise it
/// moves by the lines that the hunks ending before it add.
pub proof fn lemma_remap_closed_form(range: LineRange, hunks: Seq<DiffHunk>)
    requires
        hunks_ordered(hunks),
    ensures
        ({
            let before = hunks.take(first_not_before(range, hunks, 0));
            remap_spec(range, hunks) == if exists|k: int|
                0 <= k < hunks.len() && stale_hunk(range, #[trigger] hunks[k]) {
                Err::<LineRange, ErrorView>(crate::checks::stale_error())
            } else {
                crate::format::line_range_new(
                    (range.start + line_delta(before)) as u32,
                    (range.end + line_delta(before)) as u32,
                )
            }
        }),
{
    let b = first_not_before(range, hunks, 0);
    lemma_first_not_before(range, hunks, 0);
    assert forall|j: int| b <= j < hunks.len() implies crate::checks::hunk_old_end(
        #[trigger] hunks[j],
    ) >= range.start by {
        if j > b {
            assert(crate::checks::hunk_old_end(hunks[b]) < hunks[j].old_start);
            assert(crate::checks::hunk_old_end(hunks[j]) >= hunks[j].old_start);
        }
    }
    lemma_scan_to(range, hunks, 0, b, 0);
    assert(hunks.take(0) =~= Seq::<DiffHunk>::empty());
    let d = line_delta(hunks.take(b));
    lemma_scan_from(range, hunks, b, d);
    let any = exists|k: int| 0 <= k < hunks.len() && stale_hunk(range, #[trigger] hunks[k]);
    let late = exists|k: int| b <= k < hunks.len() && stale_hunk(range, #[trigger] hunks[k]);
    if any {
        let k = choose|k: int| 0 <= k < hunks.len() && stale_hunk(range, #[trigger] hunks[k]);
        if k < b {
            assert(crate::checks::hunk_old_end(hunks[k]) < range.start);
        }
        assert(late);
    }
    if late {
        let k = choose|k: int| b <= k < hunks.len() && stale_hunk(range, #[trigger] hunks[k]);
        assert(any);
    }
}
} // verus!
