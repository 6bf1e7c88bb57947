//! The decisions of the gloss commands: how ranges follow edits, which
//! metadata is recorded, and what `lint` and `status` report. Reading files
//! and running Git stay with the caller, which hands the results in.

use vstd::prelude::*;
use vstd::utf8::{decode_utf8, valid_utf8};
use crate::error::{error_of, with_edit, with_file, ErrorCode, ErrorView, GlossError};
use crate::edit_id::{edit_id_text, parse_edit_id, uuid_parse, uuid_text};
use crate::error::{display_path, display_path_of};
use crate::format::{
    file_result_view, line_range_new, parse_spec, record_refs_view, records_of, result_view,
    FileView, GlossFile, GlossRecord, LineRange, RecordView,
};
use crate::error::{error_line, format_error, invalid_in};
use crate::state::{hash, hex_text, sha256_digest, FileState, FileStateView};
use crate::time::Timestamp;
use crate::text::{first_token, first_token_of, strip_prefix, strip_prefix_of};
use crate::git::{hunk_fits, hunk_new_range, DiffHunk};
use crate::text::{
    chars_of, dec, join_with, join_with_of, lines, push_dec, push_str, split_lines, string_of,
    ws_tokens, ws_tokens_of,
};

verus! {

/// A metadata value as records store it: its whitespace-separated words
/// joined with `_`, or `fallback` when there are none or no value at all.
pub open spec fn token_spec(value: Option<Seq<char>>, fallback: Seq<char>) -> Seq<char> {
    match value {
        Some(v) => {
            let joined = join_with(ws_tokens(v), '_');
            if joined.len() > 0 {
                joined
            } else {
                fallback
            }
        },
        None => fallback,
    }
}

pub open spec fn option_string_view(v: Option<String>) -> Option<Seq<char>> {
    match v {
        Some(s) => Some(s@),
        None => None,
    }
}

/// A metadata value as records store it.
pub fn token(value: Option<String>, fallback: &str) -> (r: String)
    ensures
        r@ == token_spec(option_string_view(value), fallback@),
{
    match value {
        Some(v) => {
            let words = ws_tokens_of(&chars_of(v.as_str()));
            let joined = join_with_of(&words, '_');
            if joined.len() > 0 {
                string_of(&joined)
            } else {
                fallback.to_owned()
            }
        },
        None => fallback.to_owned(),
    }
}

/// The plural ending for a count.
pub fn plural(count: usize) -> (s: &'static str)
    ensures
        s@ == (if count == 1 {
            ""@
        } else {
            "s"@
        }),
{
    if count == 1 {
        ""
    } else {
        "s"
    }
}

/// The last old line a hunk touches (its start when it removes nothing).
pub open spec fn hunk_old_end(h: DiffHunk) -> int {
    if h.old_count == 0 {
        h.old_start as int
    } else {
        h.old_start + h.old_count - 1
    }
}

/// Computing a hunk's last old line does not overflow.
pub open spec fn hunk_old_fits(h: DiffHunk) -> bool {
    h.old_count > 0 ==> h.old_start + h.old_count <= u32::MAX
}

/// Scanning hunks from `i` with the shift `delta` so far: hunks that end
/// before the range shift it by what they add or remove; the scan stops at
/// the first hunk after the range; a hunk that overlaps the range and
/// changes the line count makes the range stale (`None`).
pub open spec fn remap_scan(range: LineRange, hunks: Seq<DiffHunk>, i: int, delta: int) -> Option<int>
    decreases hunks.len() - i,
{
    if i < 0 || i >= hunks.len() {
        Some(delta)
    } else {
        let h = hunks[i];
        if hunk_old_end(h) < range.start {
            remap_scan(range, hunks, i + 1, delta + h.new_count - h.old_count)
        } else if h.old_start > range.end {
            Some(delta)
        } else if h.old_count != h.new_count {
            None
        } else {
            remap_scan(range, hunks, i + 1, delta)
        }
    }
}

pub open spec fn stale_error() -> ErrorView {
    error_of(
        ErrorCode::StaleGloss,
        "source changes overlap this gloss and cannot be remapped deterministically"@,
    )
}

/// Where a range lands after the hunks: shifted by the edits before it, or
/// stale when an edit that changes the line count overlaps it.
pub open spec fn remap_spec(range: LineRange, hunks: Seq<DiffHunk>) -> Result<LineRange, ErrorView> {
    match remap_scan(range, hunks, 0, 0) {
        None => Err(stale_error()),
        Some(delta) => line_range_new((range.start + delta) as u32, (range.end + delta) as u32),
    }
}

/// Where a range lands after the hunks.
pub fn remap_range(range: &LineRange, hunks: &Vec<DiffHunk>) -> (r: Result<LineRange, GlossError>)
    requires
        forall|i: int| 0 <= i < hunks@.len() ==> hunk_old_fits(#[trigger] hunks@[i]),
    ensures
        result_view(r) == remap_spec(*range, hunks@),
{
    let mut delta: i128 = 0;
    let mut i: usize = 0;
    let mut stop = false;
    while i < hunks.len() && !stop
        invariant
            forall|j: int| 0 <= j < hunks@.len() ==> hunk_old_fits(#[trigger] hunks@[j]),
            i <= hunks@.len(),
            -(i as int) * 0x1_0000_0000 <= delta <= (i as int) * 0x1_0000_0000,
            !stop ==> remap_scan(*range, hunks@, 0, 0) == remap_scan(
                *range,
                hunks@,
                i as int,
                delta as int,
            ),
            stop ==> remap_scan(*range, hunks@, 0, 0) == Some(delta as int),
        decreases hunks@.len() - i + (if stop {
            0int
        } else {
            1int
        }),
    {
        let h = hunks[i];
        proof {
            assert(hunk_old_fits(hunks@[i as int]));
        }
        let old_end: u32 = if h.old_count == 0 {
            h.old_start
        } else {
            h.old_start + h.old_count - 1
        };
        if old_end < range.start {
            delta = delta + (h.new_count as i128 - h.old_count as i128);
            i = i + 1;
        } else if h.old_start > range.end {
            stop = true;
        } else if h.old_count != h.new_count {
            return Err(
                GlossError::new(
                    ErrorCode::StaleGloss,
                    "source changes overlap this gloss and cannot be remapped deterministically".to_owned(),
                ),
            );
        } else {
            i = i + 1;
        }
    }
    let start = #[verifier::truncate] ((range.start as i128 + delta) as u32);
    let end = #[verifier::truncate] ((range.end as i128 + delta) as u32);
    LineRange::new(start, end)
}

/// A range must end within the file (a file counts as at least one line).
pub open spec fn range_fits_spec(range: LineRange, line_count: u32, path: Seq<char>) -> Result<
    (),
    ErrorView,
> {
    let lines_max = if line_count >= 1 {
        line_count
    } else {
        1
    };
    if range.end > lines_max {
        Err(
            with_file(
                error_of(
                    ErrorCode::InvalidRange,
                    "range ends at "@ + dec(range.end as nat) + ", but the file has "@ + dec(
                        line_count as nat,
                    ) + " lines"@,
                ),
                path,
            ),
        )
    } else {
        Ok(())
    }
}

/// Whether a range ends within a file of `line_count` lines.
pub fn range_fits(range: &LineRange, line_count: u32, path: &str) -> (r: Result<(), GlossError>)
    ensures
        result_view(r) == range_fits_spec(*range, line_count, path@),
{
    let lines_max: u32 = if line_count >= 1 {
        line_count
    } else {
        1
    };
    if range.end > lines_max {
        let mut m: Vec<char> = Vec::new();
        push_str(&mut m, "range ends at ");
        push_dec(&mut m, range.end as u64);
        push_str(&mut m, ", but the file has ");
        push_dec(&mut m, line_count as u64);
        push_str(&mut m, " lines");
        return Err(GlossError::new(ErrorCode::InvalidRange, string_of(&m)).file(path));
    }
    Ok(())
}

/// Whether a hunk's new lines overlap the range.
pub open spec fn hunk_overlaps(h: DiffHunk, range: LineRange) -> bool {
    match hunk_new_range(h) {
        Some(r) => r.start <= range.end && range.start <= r.end,
        None => false,
    }
}

/// Whether some hunk's new lines overlap the range.
pub open spec fn touches_hunk_spec(range: LineRange, hunks: Seq<DiffHunk>) -> bool {
    exists|i: int| 0 <= i < hunks.len() && hunk_overlaps(#[trigger] hunks[i], range)
}

/// Whether some hunk's new lines overlap the range.
pub fn touches_hunk(range: &LineRange, hunks: &Vec<DiffHunk>) -> (b: bool)
    requires
        forall|i: int| 0 <= i < hunks@.len() ==> hunk_fits(#[trigger] hunks@[i]),
    ensures
        b == touches_hunk_spec(*range, hunks@),
{
    let mut i: usize = 0;
    while i < hunks.len()
        invariant
            forall|j: int| 0 <= j < hunks@.len() ==> hunk_fits(#[trigger] hunks@[j]),
            i <= hunks@.len(),
            forall|j: int| 0 <= j < i ==> !hunk_overlaps(#[trigger] hunks@[j], *range),
        decreases hunks@.len() - i,
    {
        proof {
            assert(hunk_fits(hunks@[i as int]));
        }
        match hunks[i].new_range() {
            Some(r) => {
                if r.overlaps(range) {
                    return true;
                }
            },
            None => {},
        }
        i = i + 1;
    }
    false
}

/// `std::str::from_utf8`, kept as an owned string. Claimed: it succeeds
/// exactly on valid UTF-8, with the characters that the bytes encode.
#[verifier::external_body]
pub(crate) fn utf8_text(bytes: &[u8]) -> (r: Option<String>)
    ensures
        match r {
            Some(s) => valid_utf8(bytes@) && s@ == decode_utf8(bytes@),
            None => !valid_utf8(bytes@),
        },
{
    match std::str::from_utf8(bytes) {
        Ok(s) => Some(s.to_owned()),
        Err(_) => None,
    }
}

/// How many lines a source file has: those of its text, none when it is
/// empty or not UTF-8.
pub open spec fn line_count_spec(bytes: Seq<u8>) -> u32 {
    if valid_utf8(bytes) {
        let text = decode_utf8(bytes);
        if text.len() == 0 {
            0
        } else {
            lines(text).len() as u32
        }
    } else {
        0
    }
}

/// How many lines a source file has.
pub fn source_line_count_bytes(input: &[u8]) -> (n: u32)
    ensures
        n == line_count_spec(input@),
{
    match utf8_text(input) {
        Some(text) => {
            let chars = chars_of(text.as_str());
            if chars.len() == 0 {
                0
            } else {
                let ls = split_lines(&chars);
                proof {
                    assert(ls@.len() == crate::text::seqs_view(ls@).len());
                }
                #[verifier::truncate]
                (ls.len() as u32)
            }
        },
        None => 0,
    }
}


/// A string map held as pairs with distinct keys.
pub open spec fn represents(v: Seq<(String, String)>, m: Map<Seq<char>, Seq<char>>) -> bool {
    &&& forall|i: int, j: int| 0 <= i < j < v.len() ==> (#[trigger] v[i]).0@ != (#[trigger] v[j]).0@
    &&& forall|i: int| 0 <= i < v.len() ==> #[trigger] m.contains_key(v[i].0@) && m[v[i].0@] == v[i].1@
    &&& forall|k: Seq<char>| #[trigger] m.contains_key(k) ==> exists|i: int| 0 <= i < v.len() && #[trigger] v[i].0@ == k
}

/// One line of `git log --reverse --format=GLOSS_COMMIT:%H -p -- *.gloss`:
/// a commit marker sets the current commit; an added line whose first word
/// is a UUID maps that UUID to the current commit unless it is mapped
/// already. File headers (`+++`) and all other lines change nothing.
pub open spec fn provenance_line(
    state: (Seq<char>, Map<Seq<char>, Seq<char>>),
    line: Seq<char>,
) -> (Seq<char>, Map<Seq<char>, Seq<char>>) {
    let commit = state.0;
    let m = state.1;
    match strip_prefix(line, "GLOSS_COMMIT:"@) {
        Some(sha) => (sha, m),
        None => if strip_prefix(line, "+++"@) is Some {
            (commit, m)
        } else {
            match strip_prefix(line, "+"@) {
                None => (commit, m),
                Some(added) => {
                    let t = first_token(added);
                    if t.len() == 0 {
                        (commit, m)
                    } else {
                        match uuid_parse(t) {
                            None => (commit, m),
                            Some(id) => {
                                let key = uuid_text(id);
                                if m.contains_key(key) {
                                    (commit, m)
                                } else {
                                    (commit, m.insert(key, commit))
                                }
                            },
                        }
                    }
                },
            }
        },
    }
}

pub open spec fn provenance_fold(ls: Seq<Seq<char>>) -> (Seq<char>, Map<Seq<char>, Seq<char>>)
    decreases ls.len(),
{
    if ls.len() == 0 {
        (seq![], Map::empty())
    } else {
        provenance_line(provenance_fold(ls.drop_last()), ls.last())
    }
}

/// The commit that first added each edit ID, read from the patch log.
pub open spec fn provenance_spec(log: Seq<char>) -> Map<Seq<char>, Seq<char>> {
    provenance_fold(lines(log)).1
}

/// The value stored for `key`, if any.
pub fn lookup<'a>(pairs: &'a Vec<(String, String)>, key: &str) -> (r: Option<&'a String>)
    ensures
        match r {
            Some(v) => exists|i: int| 0 <= i < pairs@.len() && pairs@[i].0@ == key@ && pairs@[i].1 == *v,
            None => forall|i: int| 0 <= i < pairs@.len() ==> pairs@[i].0@ != key@,
        },
{
    let kc = chars_of(key);
    let mut i: usize = 0;
    while i < pairs.len()
        invariant
            kc@ == key@,
            i <= pairs@.len(),
            forall|j: int| 0 <= j < i ==> pairs@[j].0@ != key@,
        decreases pairs@.len() - i,
    {
        if crate::text::eq_chars(&chars_of(pairs[i].0.as_str()), &kc) {
            return Some(&pairs[i].1);
        }
        i = i + 1;
    }
    None
}

/// What looking a key up in a list of pairs that stands for a map gives.
pub proof fn lemma_represents_lookup(v: Seq<(String, String)>, m: Map<Seq<char>, Seq<char>>, k: Seq<char>)
    requires
        represents(v, m),
    ensures
        m.contains_key(k) <==> exists|i: int| 0 <= i < v.len() && v[i].0@ == k,
        forall|i: int| 0 <= i < v.len() && v[i].0@ == k ==> m[k] == v[i].1@,
{
    if m.contains_key(k) {
        let i = choose|i: int| 0 <= i < v.len() && #[trigger] v[i].0@ == k;
        assert(v[i].0@ == k);
    }
    assert forall|i: int| 0 <= i < v.len() && v[i].0@ == k implies m.contains_key(k) && m[k] == v[i].1@ by {
        assert(m.contains_key(v[i].0@));
    }
}

/// The commit that first added each edit ID, read from the patch log.
pub fn provenance_from_log(log: &str) -> (r: Vec<(String, String)>)
    ensures
        represents(r@, provenance_spec(log@)),
{
    let chars = chars_of(log);
    let ls = split_lines(&chars);
    let ghost lv = crate::text::seqs_view(ls@);
    let mut commit: Vec<char> = Vec::new();
    let mut r: Vec<(String, String)> = Vec::new();
    let mut i: usize = 0;
    proof {
        assert(lv.take(0) =~= Seq::<Seq<char>>::empty());
        assert(commit@ =~= Seq::<char>::empty());
    }
    while i < ls.len()
        invariant
            lv == crate::text::seqs_view(ls@),
            lv == lines(log@),
            i <= ls@.len(),
            commit@ == provenance_fold(lv.take(i as int)).0,
            represents(r@, provenance_fold(lv.take(i as int)).1),
        decreases ls@.len() - i,
    {
        let line = &ls[i];
        proof {
            assert(lv[i as int] == line@);
            assert(lv.take(i + 1).drop_last() =~= lv.take(i as int));
            assert(lv.take(i + 1).last() == line@);
        }
        let ghost m = provenance_fold(lv.take(i as int)).1;
        match strip_prefix_of(line, "GLOSS_COMMIT:") {
            Some(sha) => {
                commit = sha;
            },
            None => {
                if strip_prefix_of(line, "+++").is_none() {
                    match strip_prefix_of(line, "+") {
                        None => {},
                        Some(added) => {
                            let t = first_token_of(&added);
                            if t.len() > 0 {
                                match parse_edit_id(string_of(&t).as_str()) {
                                    None => {},
                                    Some(id) => {
                                        let key = edit_id_text(id);
                                        proof {
                                            lemma_represents_lookup(r@, m, key@);
                                        }
                                        if lookup(&r, key.as_str()).is_none() {
                                            let ghost old_r = r@;
                                            let value = string_of(&commit);
                                            r.push((key, value));
                                            proof {
                                                let m2 = m.insert(key@, commit@);
                                                assert forall|a: int, b: int|
                                                    0 <= a < b < r@.len() implies (#[trigger] r@[a]).0@
                                                    != (#[trigger] r@[b]).0@ by {
                                                    if b == r@.len() - 1 {
                                                        assert(old_r[a] == r@[a]);
                                                    } else {
                                                        assert(old_r[a] == r@[a]);
                                                        assert(old_r[b] == r@[b]);
                                                    }
                                                }
                                                assert forall|a: int| 0 <= a < r@.len() implies #[trigger] m2.contains_key(
                                                    r@[a].0@,
                                                ) && m2[r@[a].0@] == r@[a].1@ by {
                                                    if a < old_r.len() {
                                                        assert(old_r[a] == r@[a]);
                                                        assert(m.contains_key(old_r[a].0@));
                                                    }
                                                }
                                                assert forall|k: Seq<char>| #[trigger] m2.contains_key(k) implies exists|a: int|
                                                    0 <= a < r@.len() && #[trigger] r@[a].0@ == k by {
                                                    if k == key@ {
                                                        assert(r@[r@.len() - 1].0@ == k);
                                                    } else {
                                                        assert(m.contains_key(k));
                                                        let a = choose|a: int| 0 <= a < old_r.len() && #[trigger] old_r[a].0@ == k;
                                                        assert(r@[a] == old_r[a]);
                                                    }
                                                }
                                            }
                                        }
                                    },
                                }
                            }
                        },
                    }
                }
            },
        }
        i = i + 1;
    }
    proof {
        assert(lv.take(ls@.len() as int) =~= lv);
    }
    r
}


/// The value of the first pair with key `k`.
pub open spec fn pairs_get(v: Seq<(String, String)>, k: Seq<char>) -> Option<Seq<char>>
    decreases v.len(),
{
    if v.len() == 0 {
        None
    } else if v[0].0@ == k {
        Some(v[0].1@)
    } else {
        pairs_get(v.drop_first(), k)
    }
}

/// In a list of pairs that stands for a map, the first pair with a key
/// holds the map's value for it.
pub proof fn lemma_pairs_get_represents(v: Seq<(String, String)>, m: Map<Seq<char>, Seq<char>>, k: Seq<char>)
    requires
        represents(v, m),
    ensures
        pairs_get(v, k) == (if m.contains_key(k) {
            Some(m[k])
        } else {
            None::<Seq<char>>
        }),
    decreases v.len(),
{
    lemma_represents_lookup(v, m, k);
    lemma_pairs_get_first(v, k);
}

/// The first pair with a key is the one a lookup finds.
pub proof fn lemma_pairs_get_first(v: Seq<(String, String)>, k: Seq<char>)
    ensures
        pairs_get(v, k) is None <==> forall|i: int| 0 <= i < v.len() ==> v[i].0@ != k,
        pairs_get(v, k) is Some ==> exists|i: int|
            0 <= i < v.len() && v[i].0@ == k && pairs_get(v, k) == Some(v[i].1@) && forall|j: int|
                0 <= j < i ==> v[j].0@ != k,
    decreases v.len(),
{
    if v.len() > 0 {
        lemma_pairs_get_first(v.drop_first(), k);
        if v[0].0@ != k {
            if pairs_get(v, k) is Some {
                let i = choose|i: int|
                    0 <= i < v.drop_first().len() && v.drop_first()[i].0@ == k && pairs_get(
                        v.drop_first(),
                        k,
                    ) == Some(v.drop_first()[i].1@) && forall|j: int|
                        0 <= j < i ==> v.drop_first()[j].0@ != k;
                assert(v[i + 1] == v.drop_first()[i]);
                assert forall|j: int| 0 <= j < i + 1 implies v[j].0@ != k by {
                    if j > 0 {
                        assert(v[j] == v.drop_first()[j - 1]);
                    }
                }
            } else {
                assert forall|i: int| 0 <= i < v.len() implies v[i].0@ != k by {
                    if i > 0 {
                        assert(v[i] == v.drop_first()[i - 1]);
                    }
                }
            }
        }
    }
}

/// The value of the first pair with key `key`.
pub fn pairs_lookup<'a>(pairs: &'a Vec<(String, String)>, key: &str) -> (r: Option<&'a String>)
    ensures
        match r {
            Some(v) => pairs_get(pairs@, key@) == Some(v@),
            None => pairs_get(pairs@, key@) is None,
        },
{
    let kc = chars_of(key);
    let mut i: usize = 0;
    proof {
        assert(pairs@.skip(0) =~= pairs@);
    }
    while i < pairs.len()
        invariant
            kc@ == key@,
            i <= pairs@.len(),
            pairs_get(pairs@, key@) == pairs_get(pairs@.skip(i as int), key@),
        decreases pairs@.len() - i,
    {
        proof {
            assert(pairs@.skip(i as int)[0] == pairs@[i as int]);
            assert(pairs@.skip(i as int).drop_first() =~= pairs@.skip(i + 1));
        }
        if crate::text::eq_chars(&chars_of(pairs[i].0.as_str()), &kc) {
            return Some(&pairs[i].1);
        }
        i = i + 1;
    }
    None
}

/// The path stored for the first pair with edit ID `id`.
pub open spec fn ids_get(v: Seq<(u128, String)>, id: u128) -> Option<Seq<char>>
    decreases v.len(),
{
    if v.len() == 0 {
        None
    } else if v[0].0 == id {
        Some(v[0].1@)
    } else {
        ids_get(v.drop_first(), id)
    }
}

/// An error about one record of a gloss file.
pub open spec fn edit_error(code: ErrorCode, message: Seq<char>, gloss: Seq<char>, r: RecordView) -> ErrorView {
    with_edit(
        with_file(error_of(code, message), gloss),
        uuid_text(r.edit_id),
        r.range.start,
        r.range.end,
    )
}

/// What `lint` reports about one record, in order: a range past the end of
/// the source, an edit ID seen before (in the gloss named), an edit that is
/// neither in the history nor in a current hunk, and cached provenance that
/// no longer matches the history.
pub open spec fn record_errors(
    r: RecordView,
    gloss: Seq<char>,
    line_count: u32,
    hunks: Seq<DiffHunk>,
    history: Seq<(String, String)>,
    cached: Seq<(String, String)>,
    seen: Option<Seq<char>>,
) -> Seq<ErrorView> {
    let lines_max = if line_count >= 1 {
        line_count
    } else {
        1
    };
    let key = uuid_text(r.edit_id);
    let e1 = if r.range.end > lines_max {
        seq![
            edit_error(
                ErrorCode::InvalidRange,
                "range extends past the end of the source file"@,
                gloss,
                r,
            ),
        ]
    } else {
        Seq::<ErrorView>::empty()
    };
    let e2 = match seen {
        Some(first) => seq![
            edit_error(
                ErrorCode::DuplicateEditId,
                "edit ID already appears in "@ + display_path(first),
                gloss,
                r,
            ),
        ],
        None => Seq::<ErrorView>::empty(),
    };
    let e3 = if pairs_get(history, key) is None && !touches_hunk_spec(r.range, hunks) {
        seq![
            edit_error(
                ErrorCode::GlossOutsideHunk,
                "gloss cannot be associated with a current or historical edit"@,
                gloss,
                r,
            ),
        ]
    } else {
        Seq::<ErrorView>::empty()
    };
    let e4 = match (pairs_get(cached, key), pairs_get(history, key)) {
        (Some(c), Some(a)) => if c != a {
            seq![
                edit_error(
                    ErrorCode::StaleGloss,
                    "derived provenance points to a rewritten commit; run `gloss repair`"@,
                    gloss,
                    r,
                ),
            ]
        } else {
            Seq::<ErrorView>::empty()
        },
        _ => Seq::<ErrorView>::empty(),
    };
    e1 + e2 + e3 + e4
}

pub open spec fn errors_view(v: Seq<GlossError>) -> Seq<ErrorView> {
    v.map_values(|e: GlossError| e@)
}

/// The errors of one record, as `record_errors` lists them.
pub fn check_record(
    record: &GlossRecord,
    gloss: &str,
    line_count: u32,
    hunks: &Vec<DiffHunk>,
    history: &Vec<(String, String)>,
    cached: &Vec<(String, String)>,
    seen: Option<&String>,
    errors: &mut Vec<GlossError>,
)
    requires
        forall|i: int| 0 <= i < hunks@.len() ==> hunk_fits(#[trigger] hunks@[i]),
    ensures
        errors_view(final(errors)@) == errors_view(old(errors)@) + record_errors(
            record@,
            gloss@,
            line_count,
            hunks@,
            history@,
            cached@,
            match seen {
                Some(s) => Some(s@),
                None => None,
            },
        ),
{
    let ghost start = errors_view(errors@);
    let ghost r = record@;
    let id = edit_id_text(record.edit_id);
    let lines_max: u32 = if line_count >= 1 {
        line_count
    } else {
        1
    };
    let ghost s1 = errors_view(errors@);
    if record.range.end > lines_max {
        let e = GlossError::new(
            ErrorCode::InvalidRange,
            "range extends past the end of the source file".to_owned(),
        ).file(gloss).edit(id.as_str(), record.range.start, record.range.end);
        errors.push(e);
        proof {
            assert(errors_view(errors@) =~= s1.push(e@));
        }
    }
    let ghost s2 = errors_view(errors@);
    match seen {
        Some(first) => {
            let mut m = chars_of("edit ID already appears in ");
            let shown = display_path_of(first.as_str());
            push_str(&mut m, shown.as_str());
            let e = GlossError::new(ErrorCode::DuplicateEditId, string_of(&m)).file(gloss).edit(
                id.as_str(),
                record.range.start,
                record.range.end,
            );
            errors.push(e);
            proof {
                assert(errors_view(errors@) =~= s2.push(e@));
            }
        },
        None => {},
    }
    let ghost s3 = errors_view(errors@);
    let known = pairs_lookup(history, id.as_str());
    if known.is_none() && !touches_hunk(&record.range, hunks) {
        let e = GlossError::new(
            ErrorCode::GlossOutsideHunk,
            "gloss cannot be associated with a current or historical edit".to_owned(),
        ).file(gloss).edit(id.as_str(), record.range.start, record.range.end);
        errors.push(e);
        proof {
            assert(errors_view(errors@) =~= s3.push(e@));
        }
    }
    let ghost s4 = errors_view(errors@);
    match (pairs_lookup(cached, id.as_str()), known) {
        (Some(c), Some(a)) => {
            if !crate::text::eq_chars(&chars_of(c.as_str()), &chars_of(a.as_str())) {
                let e = GlossError::new(
                    ErrorCode::StaleGloss,
                    "derived provenance points to a rewritten commit; run `gloss repair`".to_owned(),
                ).file(gloss).edit(id.as_str(), record.range.start, record.range.end);
                errors.push(e);
                proof {
                    assert(errors_view(errors@) =~= s4.push(e@));
                }
            }
        },
        _ => {},
    }
    proof {
        let seen_view = match seen {
            Some(s) => Some(s@),
            None => None::<Seq<char>>,
        };
        assert(errors_view(errors@) =~= start + record_errors(
            r,
            gloss@,
            line_count,
            hunks@,
            history@,
            cached@,
            seen_view,
        ));
    }
}

/// What `lint` reports about the records of one gloss file, with `seen`
/// the gloss file in which each edit ID last appeared so far.
pub open spec fn lint_records_fold(
    records: Seq<RecordView>,
    gloss: Seq<char>,
    line_count: u32,
    hunks: Seq<DiffHunk>,
    history: Seq<(String, String)>,
    cached: Seq<(String, String)>,
    seen: Map<u128, Seq<char>>,
) -> (Map<u128, Seq<char>>, Seq<ErrorView>)
    decreases records.len(),
{
    if records.len() == 0 {
        (seen, seq![])
    } else {
        let prev = lint_records_fold(
            records.drop_last(),
            gloss,
            line_count,
            hunks,
            history,
            cached,
            seen,
        );
        let r = records.last();
        (
            prev.0.insert(r.edit_id, gloss),
            prev.1 + record_errors(
                r,
                gloss,
                line_count,
                hunks,
                history,
                cached,
                if prev.0.contains_key(r.edit_id) {
                    Some(prev.0[r.edit_id])
                } else {
                    None
                },
            ),
        )
    }
}

/// The edit IDs seen so far, as a map.
pub open spec fn seen_map(v: Seq<(u128, String)>) -> Map<u128, Seq<char>> {
    Map::new(|id: u128| ids_get(v, id) is Some, |id: u128| ids_get(v, id)->0)
}

pub proof fn lemma_ids_get_index(v: Seq<(u128, String)>, id: u128)
    ensures
        ids_get(v, id) is None <==> forall|i: int| 0 <= i < v.len() ==> v[i].0 != id,
        ids_get(v, id) is Some ==> exists|i: int|
            0 <= i < v.len() && v[i].0 == id && ids_get(v, id) == Some(v[i].1@) && forall|j: int|
                0 <= j < i ==> v[j].0 != id,
    decreases v.len(),
{
    if v.len() > 0 {
        lemma_ids_get_index(v.drop_first(), id);
        if v[0].0 != id {
            if ids_get(v, id) is Some {
                let i = choose|i: int|
                    0 <= i < v.drop_first().len() && v.drop_first()[i].0 == id && ids_get(
                        v.drop_first(),
                        id,
                    ) == Some(v.drop_first()[i].1@) && forall|j: int|
                        0 <= j < i ==> v.drop_first()[j].0 != id;
                assert(v[i + 1] == v.drop_first()[i]);
                assert forall|j: int| 0 <= j < i + 1 implies v[j].0 != id by {
                    if j > 0 {
                        assert(v[j] == v.drop_first()[j - 1]);
                    }
                }
            } else {
                assert forall|i: int| 0 <= i < v.len() implies v[i].0 != id by {
                    if i > 0 {
                        assert(v[i] == v.drop_first()[i - 1]);
                    }
                }
            }
        }
    }
}

pub proof fn lemma_ids_get_at(v: Seq<(u128, String)>, k: int, id: u128)
    requires
        0 <= k < v.len(),
        v[k].0 == id,
        forall|j: int| 0 <= j < k ==> v[j].0 != id,
    ensures
        ids_get(v, id) == Some(v[k].1@),
    decreases k,
{
    if k > 0 {
        assert forall|j: int| 0 <= j < k - 1 implies v.drop_first()[j].0 != id by {
            assert(v.drop_first()[j] == v[j + 1]);
        }
        lemma_ids_get_at(v.drop_first(), k - 1, id);
    }
}

/// Records that `id` appeared in `gloss`, replacing any earlier entry.
fn note_seen(seen: &mut Vec<(u128, String)>, id: u128, gloss: &str)
    ensures
        seen_map(final(seen)@) == seen_map(old(seen)@).insert(id, gloss@),
{
    let ghost old_seen = seen@;
    let mut i: usize = 0;
    while i < seen.len()
        invariant
            seen@ == old_seen,
            old_seen == old(seen)@,
            i <= seen@.len(),
            forall|j: int| 0 <= j < i ==> seen@[j].0 != id,
        decreases seen@.len() - i,
    {
        if seen[i].0 == id {
            seen.set(i, (id, gloss.to_owned()));
            proof {
                lemma_ids_get_at(old_seen, i as int, id);
                assert forall|x: u128| #![auto] ids_get(seen@, x) == (if x == id {
                    Some(gloss@)
                } else {
                    ids_get(old_seen, x)
                }) by {
                    lemma_ids_get_index(seen@, x);
                    lemma_ids_get_index(old_seen, x);
                    if x == id {
                        lemma_ids_get_at(seen@, i as int, id);
                    } else {
                        if ids_get(old_seen, x) is Some {
                            let k = choose|k: int|
                                0 <= k < old_seen.len() && old_seen[k].0 == x && ids_get(old_seen, x)
                                    == Some(old_seen[k].1@) && forall|j: int|
                                    0 <= j < k ==> old_seen[j].0 != x;
                            assert(seen@[k] == old_seen[k]);
                            lemma_ids_get_at(seen@, k, x);
                        } else {
                            assert forall|j: int| 0 <= j < seen@.len() implies seen@[j].0 != x by {
                                if j != i {
                                    assert(seen@[j] == old_seen[j]);
                                }
                            }
                        }
                    }
                }
                assert(seen_map(seen@) =~= seen_map(old_seen).insert(id, gloss@));
            }
            return;
        }
        i = i + 1;
    }
    seen.push((id, gloss.to_owned()));
    proof {
        assert forall|x: u128| #![auto] ids_get(seen@, x) == (if x == id {
            Some(gloss@)
        } else {
            ids_get(old_seen, x)
        }) by {
            lemma_ids_get_index(seen@, x);
            lemma_ids_get_index(old_seen, x);
            if x == id {
                assert forall|j: int| 0 <= j < old_seen.len() implies seen@[j].0 != id by {
                    assert(seen@[j] == old_seen[j]);
                }
                lemma_ids_get_at(seen@, old_seen.len() as int, id);
            } else {
                if ids_get(old_seen, x) is Some {
                    let k = choose|k: int|
                        0 <= k < old_seen.len() && old_seen[k].0 == x && ids_get(old_seen, x)
                            == Some(old_seen[k].1@) && forall|j: int|
                            0 <= j < k ==> old_seen[j].0 != x;
                    assert(seen@[k] == old_seen[k]);
                    lemma_ids_get_at(seen@, k, x);
                } else {
                    assert forall|j: int| 0 <= j < seen@.len() implies seen@[j].0 != x by {
                        if j < old_seen.len() {
                            assert(seen@[j] == old_seen[j]);
                        }
                    }
                }
            }
        }
        assert(seen_map(seen@) =~= seen_map(old_seen).insert(id, gloss@));
    }
}

/// The path last noted for `id`.
fn seen_lookup<'a>(seen: &'a Vec<(u128, String)>, id: u128) -> (r: Option<&'a String>)
    ensures
        match r {
            Some(p) => seen_map(seen@).contains_key(id) && seen_map(seen@)[id] == p@,
            None => !seen_map(seen@).contains_key(id),
        },
{
    let mut i: usize = 0;
    while i < seen.len()
        invariant
            i <= seen@.len(),
            forall|j: int| 0 <= j < i ==> seen@[j].0 != id,
        decreases seen@.len() - i,
    {
        if seen[i].0 == id {
            proof {
                lemma_ids_get_at(seen@, i as int, id);
            }
            return Some(&seen[i].1);
        }
        i = i + 1;
    }
    proof {
        lemma_ids_get_index(seen@, id);
    }
    None
}

/// What `lint` reports about the records of one gloss file; `seen` keeps,
/// across files, the gloss in which each edit ID last appeared.
pub fn check_records(
    records: &Vec<&GlossRecord>,
    gloss: &str,
    line_count: u32,
    hunks: &Vec<DiffHunk>,
    history: &Vec<(String, String)>,
    cached: &Vec<(String, String)>,
    seen: &mut Vec<(u128, String)>,
    errors: &mut Vec<GlossError>,
)
    requires
        forall|i: int| 0 <= i < hunks@.len() ==> hunk_fits(#[trigger] hunks@[i]),
    ensures
        ({
            let out = lint_records_fold(
                record_refs_view(records@),
                gloss@,
                line_count,
                hunks@,
                history@,
                cached@,
                seen_map(old(seen)@),
            );
            &&& seen_map(final(seen)@) == out.0
            &&& errors_view(final(errors)@) == errors_view(old(errors)@) + out.1
        }),
{
    let ghost rv = record_refs_view(records@);
    let ghost seen0 = seen_map(seen@);
    let ghost errors0 = errors_view(errors@);
    let mut i: usize = 0;
    proof {
        assert(rv.take(0) =~= Seq::<RecordView>::empty());
        assert(errors_view(errors@) =~= errors0 + Seq::<ErrorView>::empty());
    }
    while i < records.len()
        invariant
            rv == record_refs_view(records@),
            forall|j: int| 0 <= j < hunks@.len() ==> hunk_fits(#[trigger] hunks@[j]),
            i <= records@.len(),
            seen_map(seen@) == lint_records_fold(
                rv.take(i as int),
                gloss@,
                line_count,
                hunks@,
                history@,
                cached@,
                seen0,
            ).0,
            errors_view(errors@) == errors0 + lint_records_fold(
                rv.take(i as int),
                gloss@,
                line_count,
                hunks@,
                history@,
                cached@,
                seen0,
            ).1,
        decreases records@.len() - i,
    {
        let record = records[i];
        proof {
            assert(rv[i as int] == record@);
            assert(rv.take(i + 1).drop_last() =~= rv.take(i as int));
            assert(rv.take(i + 1).last() == record@);
        }
        let ghost prev_errors = errors_view(errors@);
        let previous = match seen_lookup(seen, record.edit_id) {
            Some(p) => Some(p.clone()),
            None => None,
        };
        check_record(record, gloss, line_count, hunks, history, cached, previous.as_ref(), errors);
        note_seen(seen, record.edit_id, gloss);
        proof {
            let prev = lint_records_fold(
                rv.take(i as int),
                gloss@,
                line_count,
                hunks@,
                history@,
                cached@,
                seen0,
            );
            assert(errors_view(errors@) =~= errors0 + (prev.1 + record_errors(
                record@,
                gloss@,
                line_count,
                hunks@,
                history@,
                cached@,
                if prev.0.contains_key(record.edit_id) {
                    Some(prev.0[record.edit_id])
                } else {
                    None
                },
            )));
        }
        i = i + 1;
    }
    proof {
        assert(rv.take(records@.len() as int) =~= rv);
    }
}


/// A gloss file read from bytes: it must be UTF-8, and then parse.
pub open spec fn parse_bytes_spec(input: Seq<u8>, path: Seq<char>) -> Result<FileView, ErrorView> {
    if valid_utf8(input) {
        parse_spec(decode_utf8(input), path)
    } else {
        Err(invalid_in(path, "gloss file must be UTF-8"@))
    }
}

/// Reads a gloss file from bytes.
pub fn parse_gloss_bytes(input: &[u8], path: &str) -> (r: Result<GlossFile, GlossError>)
    ensures
        file_result_view(r) == parse_bytes_spec(input@, path@),
{
    match utf8_text(input) {
        Some(text) => GlossFile::parse(text.as_str(), path),
        None => Err(
            GlossError::new(ErrorCode::InvalidFormat, "gloss file must be UTF-8".to_owned()).file(
                path,
            ),
        ),
    }
}

pub open spec fn bytes_opt(b: Option<&[u8]>) -> Option<Seq<u8>> {
    match b {
        Some(x) => Some(x@),
        None => None,
    }
}

/// What `lint` says of a changed source file: whether its gloss is checked
/// further, and the errors about the pair. A deleted source must take its
/// gloss with it (when the gloss existed before); a present source needs a
/// gloss, which must have changed too, with a newer `updated` instant than
/// the gloss before the change when both versions parse.
pub open spec fn touched_source_spec(
    source: Seq<char>,
    gloss: Seq<char>,
    source_present: bool,
    current_gloss: Option<Seq<u8>>,
    gloss_changed: bool,
    previous_gloss: Option<Seq<u8>>,
) -> (bool, Seq<ErrorView>) {
    if !source_present {
        if previous_gloss is Some && (current_gloss is Some || !gloss_changed) {
            (
                false,
                seq![
                    with_file(
                        error_of(
                            ErrorCode::OrphanedGloss,
                            "deleted source must delete its gloss in the same change"@,
                        ),
                        gloss,
                    ),
                ],
            )
        } else {
            (false, seq![])
        }
    } else {
        match current_gloss {
            None => (
                false,
                seq![
                    with_file(
                        error_of(
                            ErrorCode::MissingGloss,
                            "touched source requires a sibling gloss file; run `gloss lint --fix`"@,
                        ),
                        source,
                    ),
                ],
            ),
            Some(current) => if !gloss_changed {
                (
                    true,
                    seq![
                        with_file(
                            error_of(
                                ErrorCode::OutdatedHeader,
                                "touched source requires its gloss header to be updated in the same change"@,
                            ),
                            gloss,
                        ),
                    ],
                )
            } else {
                match previous_gloss {
                    None => (true, seq![]),
                    Some(previous) => match (
                        parse_bytes_spec(current, gloss),
                        parse_bytes_spec(previous, gloss),
                    ) {
                        (Ok(c), Ok(p)) => if c.updated == p.updated {
                            (
                                true,
                                seq![
                                    with_file(
                                        error_of(
                                            ErrorCode::OutdatedHeader,
                                            "gloss changed but its updated timestamp was not bumped"@,
                                        ),
                                        gloss,
                                    ),
                                ],
                            )
                        } else {
                            (true, seq![])
                        },
                        _ => (true, seq![]),
                    },
                }
            },
        }
    }
}

/// Checks a changed source file against its gloss (`current_gloss` and
/// `previous_gloss` are the gloss in the checked scope and before the
/// change); returns whether the gloss is to be checked further.
pub fn check_touched_source(
    source: &str,
    gloss: &str,
    source_present: bool,
    current_gloss: Option<&[u8]>,
    gloss_changed: bool,
    previous_gloss: Option<&[u8]>,
    errors: &mut Vec<GlossError>,
) -> (track: bool)
    ensures
        ({
            let out = touched_source_spec(
                source@,
                gloss@,
                source_present,
                bytes_opt(current_gloss),
                gloss_changed,
                bytes_opt(previous_gloss),
            );
            &&& track == out.0
            &&& errors_view(final(errors)@) == errors_view(old(errors)@) + out.1
        }),
{
    let ghost start = errors_view(errors@);
    if !source_present {
        if previous_gloss.is_some() && (current_gloss.is_some() || !gloss_changed) {
            let e = GlossError::new(
                ErrorCode::OrphanedGloss,
                "deleted source must delete its gloss in the same change".to_owned(),
            ).file(gloss);
            errors.push(e);
            proof {
                assert(errors_view(errors@) =~= start.push(e@));
            }
        } else {
            proof {
                assert(errors_view(errors@) =~= start + Seq::<ErrorView>::empty());
            }
        }
        return false;
    }
    let current = match current_gloss {
        None => {
            let e = GlossError::new(
                ErrorCode::MissingGloss,
                "touched source requires a sibling gloss file; run `gloss lint --fix`".to_owned(),
            ).file(source);
            errors.push(e);
            proof {
                assert(errors_view(errors@) =~= start.push(e@));
            }
            return false;
        },
        Some(c) => c,
    };
    if !gloss_changed {
        let e = GlossError::new(
            ErrorCode::OutdatedHeader,
            "touched source requires its gloss header to be updated in the same change".to_owned(),
        ).file(gloss);
        errors.push(e);
        proof {
            assert(errors_view(errors@) =~= start.push(e@));
        }
        return true;
    }
    match previous_gloss {
        None => {},
        Some(previous) => {
            match (parse_gloss_bytes(current, gloss), parse_gloss_bytes(previous, gloss)) {
                (Ok(c), Ok(p)) => {
                    if c.updated == p.updated {
                        let e = GlossError::new(
                            ErrorCode::OutdatedHeader,
                            "gloss changed but its updated timestamp was not bumped".to_owned(),
                        ).file(gloss);
                        errors.push(e);
                        proof {
                            assert(errors_view(errors@) =~= start.push(e@));
                        }
                        return true;
                    }
                },
                _ => {},
            }
        },
    }
    proof {
        assert(errors_view(errors@) =~= start + Seq::<ErrorView>::empty());
    }
    true
}

/// The header of a gloss no longer describes its source when the derived
/// state knows a different source hash or header instant.
pub open spec fn header_errors(
    gloss: Seq<char>,
    source: Seq<u8>,
    updated: Timestamp,
    known: Option<FileStateView>,
) -> Seq<ErrorView> {
    match known {
        Some(fs) => if fs.source_hash != hex_text(sha256_digest(source)) || fs.header_updated
            != updated {
            seq![
                with_file(
                    error_of(
                        ErrorCode::OutdatedHeader,
                        "header does not reflect the current source contents"@,
                    ),
                    gloss,
                ),
            ]
        } else {
            seq![]
        },
        None => seq![],
    }
}

/// What `lint` reports about one gloss file, given its source and its own
/// bytes in the checked scope (`None` when absent) and, in the working tree,
/// what the derived state knows of the source; `seen` maps each edit ID met
/// so far to its gloss.
pub open spec fn gloss_check_spec(
    gloss: Seq<char>,
    source_bytes: Option<Seq<u8>>,
    gloss_bytes: Option<Seq<u8>>,
    known: Option<FileStateView>,
    hunks: Seq<DiffHunk>,
    history: Seq<(String, String)>,
    cached: Seq<(String, String)>,
    seen: Map<u128, Seq<char>>,
) -> (Map<u128, Seq<char>>, Seq<ErrorView>) {
    match source_bytes {
        None => (
            seen,
            seq![
                with_file(
                    error_of(ErrorCode::MissingSource, "corresponding source file does not exist"@),
                    gloss,
                ),
            ],
        ),
        Some(source) => match gloss_bytes {
            None => (seen, seq![]),
            Some(bytes) => match parse_bytes_spec(bytes, gloss) {
                Err(e) => (seen, seq![e]),
                Ok(doc) => {
                    let out = lint_records_fold(
                        records_of(doc.body),
                        gloss,
                        line_count_spec(source),
                        hunks,
                        history,
                        cached,
                        seen,
                    );
                    (out.0, header_errors(gloss, source, doc.updated, known) + out.1)
                },
            },
        },
    }
}

pub open spec fn state_opt(f: Option<&FileState>) -> Option<FileStateView> {
    match f {
        Some(x) => Some(x@),
        None => None,
    }
}

/// Checks one gloss file.
pub fn check_gloss(
    gloss: &str,
    source_bytes: Option<&[u8]>,
    gloss_bytes: Option<&[u8]>,
    known: Option<&FileState>,
    hunks: &Vec<DiffHunk>,
    history: &Vec<(String, String)>,
    cached: &Vec<(String, String)>,
    seen: &mut Vec<(u128, String)>,
    errors: &mut Vec<GlossError>,
)
    requires
        forall|i: int| 0 <= i < hunks@.len() ==> hunk_fits(#[trigger] hunks@[i]),
    ensures
        ({
            let out = gloss_check_spec(
                gloss@,
                bytes_opt(source_bytes),
                bytes_opt(gloss_bytes),
                state_opt(known),
                hunks@,
                history@,
                cached@,
                seen_map(old(seen)@),
            );
            &&& seen_map(final(seen)@) == out.0
            &&& errors_view(final(errors)@) == errors_view(old(errors)@) + out.1
        }),
{
    let ghost start = errors_view(errors@);
    let source = match source_bytes {
        None => {
            let e = GlossError::new(
                ErrorCode::MissingSource,
                "corresponding source file does not exist".to_owned(),
            ).file(gloss);
            errors.push(e);
            proof {
                assert(errors_view(errors@) =~= start.push(e@));
            }
            return;
        },
        Some(s) => s,
    };
    let bytes = match gloss_bytes {
        None => {
            proof {
                assert(errors_view(errors@) =~= start + Seq::<ErrorView>::empty());
            }
            return;
        },
        Some(b) => b,
    };
    let document = match parse_gloss_bytes(bytes, gloss) {
        Err(e) => {
            errors.push(e);
            proof {
                assert(errors_view(errors@) =~= start + seq![e@]);
            }
            return;
        },
        Ok(d) => d,
    };
    match known {
        Some(fs) => {
            let current = hash(source);
            if !crate::text::eq_chars(
                &chars_of(fs.source_hash.as_str()),
                &chars_of(current.as_str()),
            ) || fs.header_updated != document.updated {
                let e = GlossError::new(
                    ErrorCode::OutdatedHeader,
                    "header does not reflect the current source contents".to_owned(),
                ).file(gloss);
                errors.push(e);
                proof {
                    assert(errors_view(errors@) =~= start.push(e@));
                }
            } else {
                proof {
                    assert(errors_view(errors@) =~= start + Seq::<ErrorView>::empty());
                }
            }
        },
        None => {
            proof {
                assert(errors_view(errors@) =~= start + Seq::<ErrorView>::empty());
            }
        },
    }
    let ghost mid = errors_view(errors@);
    let line_count = source_line_count_bytes(source);
    let records = document.records();
    check_records(&records, gloss, line_count, hunks, history, cached, seen, errors);
    proof {
        assert(errors_view(errors@) =~= start + (mid.subrange(start.len() as int, mid.len() as int)
            + (errors_view(errors@).subrange(mid.len() as int, errors_view(errors@).len() as int))));
    }
}

/// What `lint` prints: a pass line with the number of gloss files checked,
/// or each error on a line of its own.
pub open spec fn lint_summary_spec(files_checked: nat, errors: Seq<ErrorView>) -> Seq<char> {
    if errors.len() == 0 {
        "Gloss lint passed ("@ + dec(files_checked) + " file"@ + (if files_checked == 1 {
            ""@
        } else {
            "s"@
        }) + ")."@
    } else {
        join_with(errors.map_values(|e: ErrorView| error_line(e)), '\n')
    }
}

/// What `lint` prints for people.
pub fn lint_summary(files_checked: usize, errors: &Vec<GlossError>) -> (s: String)
    ensures
        s@ == lint_summary_spec(files_checked as nat, errors_view(errors@)),
{
    if errors.len() == 0 {
        let mut m = chars_of("Gloss lint passed (");
        push_dec(&mut m, files_checked as u64);
        push_str(&mut m, " file");
        push_str(&mut m, plural(files_checked));
        push_str(&mut m, ").");
        return string_of(&m);
    }
    let mut lines: Vec<Vec<char>> = Vec::new();
    let mut i: usize = 0;
    while i < errors.len()
        invariant
            i <= errors@.len(),
            crate::text::seqs_view(lines@) == errors_view(errors@).take(i as int).map_values(
                |e: ErrorView| error_line(e),
            ),
        decreases errors@.len() - i,
    {
        let ghost before = lines@;
        let line = chars_of(format_error(&errors[i]).as_str());
        lines.push(line);
        proof {
            assert(crate::text::seqs_view(lines@) =~= crate::text::seqs_view(before).push(line@));
            assert(errors_view(errors@).take(i + 1) =~= errors_view(errors@).take(i as int).push(
                errors@[i as int]@,
            ));
            assert(errors_view(errors@).take(i + 1).map_values(|e: ErrorView| error_line(e))
                =~= errors_view(errors@).take(i as int).map_values(|e: ErrorView| error_line(e)).push(
                error_line(errors@[i as int]@),
            ));
        }
        i = i + 1;
    }
    proof {
        assert(errors_view(errors@).take(errors@.len() as int) =~= errors_view(errors@));
    }
    string_of(&join_with_of(&lines, '\n'))
}

/// Once the patch log has mapped an edit ID to a commit, later lines never
/// change it: an edit's origin is the first commit that added it.
pub proof fn lemma_provenance_first(ls: Seq<Seq<char>>, k: int, key: Seq<char>)
    requires
        0 <= k <= ls.len(),
        provenance_fold(ls.take(k)).1.contains_key(key),
    ensures
        provenance_fold(ls).1.contains_key(key),
        provenance_fold(ls).1[key] == provenance_fold(ls.take(k)).1[key],
    decreases ls.len() - k,
{
    if k < ls.len() {
        assert(ls.take(k + 1).drop_last() =~= ls.take(k));
        assert(ls.take(k + 1).last() == ls[k]);
        lemma_provenance_first(ls, k + 1, key);
    } else {
        assert(ls.take(k) =~= ls);
    }
}

/// What `lint` knows of one gloss file in the checked scope: its source and
/// its own bytes (`None` when absent), what the derived state knows of the
/// source (in the working tree only), and the source's hunks.
#[derive(Debug)]
pub struct GlossInput {
    pub gloss: String,
    pub source_bytes: Option<Vec<u8>>,
    pub gloss_bytes: Option<Vec<u8>>,
    pub known: Option<FileState>,
    pub hunks: Vec<DiffHunk>,
}

pub open spec fn vec_opt(b: Option<Vec<u8>>) -> Option<Seq<u8>> {
    match b {
        Some(x) => Some(x@),
        None => None,
    }
}

pub open spec fn known_opt(f: Option<FileState>) -> Option<FileStateView> {
    match f {
        Some(x) => Some(x@),
        None => None,
    }
}

/// Every hunk of every input ends within 32-bit line numbers.
pub open spec fn inputs_fit(inputs: Seq<GlossInput>) -> bool {
    forall|i: int, j: int|
        0 <= i < inputs.len() && 0 <= j < inputs[i].hunks@.len() ==> hunk_fits(
            #[trigger] inputs[i].hunks@[j],
        )
}

/// What `lint` reports about the gloss files, in order: a gloss outside a
/// `.gloss` directory gives its path error; the others are checked as
/// `gloss_check_spec` says, each edit ID remembered across files.
pub open spec fn glosses_check_spec(
    inputs: Seq<GlossInput>,
    history: Seq<(String, String)>,
    cached: Seq<(String, String)>,
    seen: Map<u128, Seq<char>>,
) -> (Map<u128, Seq<char>>, Seq<ErrorView>)
    decreases inputs.len(),
{
    if inputs.len() == 0 {
        (seen, seq![])
    } else {
        let prev = glosses_check_spec(inputs.drop_last(), history, cached, seen);
        let g = inputs.last();
        match crate::paths::source_path_spec(g.gloss@) {
            Err(e) => (prev.0, prev.1.push(e)),
            Ok(_) => {
                let out = gloss_check_spec(
                    g.gloss@,
                    vec_opt(g.source_bytes),
                    vec_opt(g.gloss_bytes),
                    known_opt(g.known),
                    g.hunks@,
                    history,
                    cached,
                    prev.0,
                );
                (out.0, prev.1 + out.1)
            },
        }
    }
}

fn slice_opt(b: &Option<Vec<u8>>) -> (r: Option<&[u8]>)
    ensures
        bytes_opt(r) == vec_opt(*b),
{
    match b {
        Some(x) => Some(x.as_slice()),
        None => None,
    }
}

/// Checks the gloss files in order, appending what `lint` reports about
/// them to `errors`.
pub fn check_glosses(
    inputs: &Vec<GlossInput>,
    history: &Vec<(String, String)>,
    cached: &Vec<(String, String)>,
    errors: &mut Vec<GlossError>,
)
    requires
        inputs_fit(inputs@),
    ensures
        errors_view(final(errors)@) == errors_view(old(errors)@) + glosses_check_spec(
            inputs@,
            history@,
            cached@,
            Map::empty(),
        ).1,
{
    let ghost start = errors_view(errors@);
    let mut seen: Vec<(u128, String)> = Vec::new();
    let mut i: usize = 0;
    proof {
        assert(seen_map(seen@) =~= Map::<u128, Seq<char>>::empty());
        assert(inputs@.take(0) =~= Seq::<GlossInput>::empty());
        assert(errors_view(errors@) =~= start + Seq::<ErrorView>::empty());
    }
    while i < inputs.len()
        invariant
            inputs_fit(inputs@),
            i <= inputs@.len(),
            ({
                let out = glosses_check_spec(inputs@.take(i as int), history@, cached@, Map::empty());
                &&& seen_map(seen@) == out.0
                &&& errors_view(errors@) == start + out.1
            }),
        decreases inputs@.len() - i,
    {
        let ghost before = errors_view(errors@);
        proof {
            assert(inputs@.take(i + 1).drop_last() =~= inputs@.take(i as int));
            assert(inputs@.take(i + 1).last() == inputs@[i as int]);
        }
        let input = &inputs[i];
        match crate::paths::source_path(input.gloss.as_str()) {
            Err(e) => {
                errors.push(e);
                proof {
                    assert(errors_view(errors@) =~= before.push(e@));
                }
            },
            Ok(_) => {
                proof {
                    assert forall|j: int| 0 <= j < input.hunks@.len() implies hunk_fits(
                        #[trigger] input.hunks@[j],
                    ) by {
                        assert(inputs@[i as int].hunks@[j] == input.hunks@[j]);
                    }
                }
                let known = match &input.known {
                    Some(k) => Some(k),
                    None => None,
                };
                check_gloss(
                    input.gloss.as_str(),
                    slice_opt(&input.source_bytes),
                    slice_opt(&input.gloss_bytes),
                    known,
                    &input.hunks,
                    history,
                    cached,
                    &mut seen,
                    errors,
                );
                proof {
                    assert(state_opt(known) == known_opt(input.known));
                }
            },
        }
        i = i + 1;
    }
    proof {
        assert(inputs@.take(inputs@.len() as int) =~= inputs@);
    }
}

/// What `lint` reads for one changed path: the source and its gloss in the
/// checked scope, and the gloss before the change (`None` when absent).
#[derive(Debug)]
pub struct TouchedInput {
    pub source_bytes: Option<Vec<u8>>,
    pub gloss_bytes: Option<Vec<u8>>,
    pub previous_gloss: Option<Vec<u8>>,
}

pub open spec fn strings_view(v: Seq<String>) -> Seq<Seq<char>> {
    v.map_values(|s: String| s@)
}

/// `lint`'s pass over the first `n` changed paths: paths inside a `.gloss`
/// directory and those outside the selection are skipped; each other source
/// is checked against its gloss as `touched_source_spec` says, whether the
/// gloss changed too being read from the whole list. The result is the
/// glosses to check further and the errors, or the first path that has no
/// gloss path.
pub open spec fn touched_pass_spec(
    changed: Seq<Seq<char>>,
    selection: Seq<Seq<char>>,
    reads: Seq<TouchedInput>,
    n: int,
) -> Result<(Seq<Seq<char>>, Seq<ErrorView>), ErrorView>
    decreases n,
{
    if n <= 0 {
        Ok((seq![], seq![]))
    } else {
        match touched_pass_spec(changed, selection, reads, n - 1) {
            Err(e) => Err(e),
            Ok((glosses, errors)) => {
                let source = changed[n - 1];
                if crate::paths::in_gloss_dir(source) || !crate::paths::selected_spec(
                    source,
                    selection,
                ) {
                    Ok((glosses, errors))
                } else {
                    match crate::paths::gloss_path_spec(source) {
                        Err(e) => Err(e),
                        Ok(gloss) => {
                            let r = reads[n - 1];
                            let out = touched_source_spec(
                                source,
                                gloss,
                                r.source_bytes is Some,
                                vec_opt(r.gloss_bytes),
                                changed.contains(gloss),
                                vec_opt(r.previous_gloss),
                            );
                            Ok(
                                (
                                    if out.0 {
                                        glosses.push(gloss)
                                    } else {
                                        glosses
                                    },
                                    errors + out.1,
                                ),
                            )
                        },
                    }
                }
            },
        }
    }
}

proof fn lemma_touched_err_stays(
    changed: Seq<Seq<char>>,
    selection: Seq<Seq<char>>,
    reads: Seq<TouchedInput>,
    k: int,
    n: int,
)
    requires
        1 <= k <= n,
        touched_pass_spec(changed, selection, reads, k) is Err,
    ensures
        touched_pass_spec(changed, selection, reads, n) == touched_pass_spec(changed, selection, reads, k),
    decreases n - k,
{
    if n > k {
        lemma_touched_err_stays(changed, selection, reads, k, n - 1);
    }
}

fn contains_string(v: &Vec<String>, s: &str) -> (b: bool)
    ensures
        b == strings_view(v@).contains(s@),
{
    let sc = chars_of(s);
    let mut i: usize = 0;
    while i < v.len()
        invariant
            sc@ == s@,
            i <= v@.len(),
            forall|j: int| 0 <= j < i ==> v@[j]@ != s@,
        decreases v@.len() - i,
    {
        if crate::text::eq_chars(&chars_of(v[i].as_str()), &sc) {
            proof {
                assert(strings_view(v@)[i as int] == s@);
            }
            return true;
        }
        i = i + 1;
    }
    proof {
        if strings_view(v@).contains(s@) {
            let j = choose|j: int| 0 <= j < strings_view(v@).len() && strings_view(v@)[j] == s@;
            assert(v@[j]@ == s@);
        }
    }
    false
}

/// Checks the changed paths against their glosses, appending the errors to
/// `errors`; returns the glosses to check further, or the first error of a
/// path that has no gloss path (`errors` then holds those found before it).
pub fn check_touched_sources(
    changed: &Vec<String>,
    selection: &Vec<String>,
    reads: &Vec<TouchedInput>,
    errors: &mut Vec<GlossError>,
) -> (r: Result<Vec<String>, GlossError>)
    requires
        reads@.len() == changed@.len(),
    ensures
        match r {
            Ok(glosses) => touched_pass_spec(
                strings_view(changed@),
                strings_view(selection@),
                reads@,
                changed@.len() as int,
            ) == Ok::<(Seq<Seq<char>>, Seq<ErrorView>), ErrorView>(
                (
                    strings_view(glosses@),
                    errors_view(final(errors)@).subrange(
                        errors_view(old(errors)@).len() as int,
                        errors_view(final(errors)@).len() as int,
                    ),
                ),
            ) && errors_view(final(errors)@).subrange(0, errors_view(old(errors)@).len() as int)
                == errors_view(old(errors)@),
            Err(e) => touched_pass_spec(
                strings_view(changed@),
                strings_view(selection@),
                reads@,
                changed@.len() as int,
            ) == Err::<(Seq<Seq<char>>, Seq<ErrorView>), ErrorView>(e@),
        },
{
    let ghost start = errors_view(errors@);
    let ghost cv = strings_view(changed@);
    let ghost sv = strings_view(selection@);
    let mut glosses: Vec<String> = Vec::new();
    let mut i: usize = 0;
    proof {
        assert(strings_view(glosses@) =~= Seq::<Seq<char>>::empty());
        assert(errors_view(errors@).subrange(start.len() as int, errors_view(errors@).len() as int)
            =~= Seq::<ErrorView>::empty());
        assert(errors_view(errors@).subrange(0, start.len() as int) =~= start);
    }
    while i < changed.len()
        invariant
            reads@.len() == changed@.len(),
            cv == strings_view(changed@),
            sv == strings_view(selection@),
            i <= changed@.len(),
            start.len() <= errors_view(errors@).len(),
            errors_view(errors@).subrange(0, start.len() as int) == start,
            touched_pass_spec(cv, sv, reads@, i as int) == Ok::<
                (Seq<Seq<char>>, Seq<ErrorView>),
                ErrorView,
            >(
                (
                    strings_view(glosses@),
                    errors_view(errors@).subrange(
                        start.len() as int,
                        errors_view(errors@).len() as int,
                    ),
                ),
            ),
        decreases changed@.len() - i,
    {
        let ghost eb = errors_view(errors@);
        let ghost gb = strings_view(glosses@);
        let source = changed[i].as_str();
        proof {
            assert(cv[i as int] == source@);
        }
        if crate::paths::ignored_source(source) || !crate::paths::selected(source, selection) {
            i = i + 1;
        } else {
            let gloss = match crate::paths::gloss_path(source) {
                Ok(g) => g,
                Err(e) => {
                    proof {
                        lemma_touched_err_stays(cv, sv, reads@, i + 1, changed@.len() as int);
                    }
                    return Err(e);
                },
            };
            let gloss_changed = contains_string(changed, gloss.as_str());
            let read = &reads[i];
            let track = check_touched_source(
                source,
                gloss.as_str(),
                read.source_bytes.is_some(),
                slice_opt(&read.gloss_bytes),
                gloss_changed,
                slice_opt(&read.previous_gloss),
                errors,
            );
            let ghost ea = errors_view(errors@);
            proof {
                assert(reads@[i as int] == *read);
                assert(ea.subrange(0, start.len() as int) =~= eb.subrange(0, start.len() as int));
                assert(ea.subrange(start.len() as int, ea.len() as int) =~= eb.subrange(
                    start.len() as int,
                    eb.len() as int,
                ) + ea.subrange(eb.len() as int, ea.len() as int));
            }
            let ghost gv = gloss@;
            proof {
                let r = reads@[i as int];
                let out = touched_source_spec(
                    cv[i as int],
                    gv,
                    r.source_bytes is Some,
                    vec_opt(r.gloss_bytes),
                    cv.contains(gv),
                    vec_opt(r.previous_gloss),
                );
                assert(track == out.0);
                assert(ea == eb + out.1);
                assert(ea.subrange(eb.len() as int, ea.len() as int) =~= out.1);
                assert(!crate::paths::in_gloss_dir(cv[i as int]));
                assert(crate::paths::selected_spec(cv[i as int], sv));
                assert(crate::paths::gloss_path_spec(cv[i as int]) == Ok::<Seq<char>, ErrorView>(gv));
            }
            if track {
                glosses.push(gloss);
                proof {
                    assert(strings_view(glosses@) =~= gb.push(gv));
                }
            }
            proof {
                assert(touched_pass_spec(cv, sv, reads@, i + 1) == Ok::<
                    (Seq<Seq<char>>, Seq<ErrorView>),
                    ErrorView,
                >(
                    (
                        strings_view(glosses@),
                        errors_view(errors@).subrange(
                            start.len() as int,
                            errors_view(errors@).len() as int,
                        ),
                    ),
                ));
            }
            i = i + 1;
        }
    }
    Ok(glosses)
}
} // verus!
